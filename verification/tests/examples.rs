use sprack::{pack, Bin, Dimension, HeuristicSet, Node, PackHeuristic, PackOptions, Placement, Rectangle};

fn options(w: u32, h: u32, flipping: bool, keys: HeuristicSet) -> PackOptions {
    PackOptions { bin_size: Dimension::new(w, h), atlas_compact_steps: 0, flipping, trim: false, pack_heuristics: keys }
}

fn rect(x: u32, y: u32, w: u32, h: u32, flipped: bool) -> Rectangle {
    Rectangle { x, y, size: Dimension::new(w, h), flipped }
}

#[test]
fn single_exact_fit() {
    let keys = HeuristicSet::none().with(PackHeuristic::Area);
    let results = pack(&[Dimension::new(10, 10)], &options(10, 10, false, keys)).unwrap();
    assert_eq!(results.len(), 1);
    assert_eq!(results[0].heuristics, PackHeuristic::Area);
    assert_eq!(results[0].bins.len(), 1);
    assert_eq!(results[0].bins[0].placements, vec![Placement { index: 0, rect: rect(0, 0, 10, 10, false) }]);
}

#[test]
fn two_side_by_side() {
    let results = pack(
        &[Dimension::new(6, 10), Dimension::new(4, 10)],
        &options(10, 10, false, HeuristicSet::all()),
    ).unwrap();
    assert_eq!(results.len(), 7);
    for result in &results {
        assert_eq!(result.bins.len(), 1);
        assert_eq!(
            result.bins[0].placements,
            vec![
                Placement { index: 0, rect: rect(0, 0, 6, 10, false) },
                Placement { index: 1, rect: rect(6, 0, 4, 10, false) },
            ]
        );
    }
}

#[test]
fn overflow_to_second_bin() {
    let keys = HeuristicSet::none().with(PackHeuristic::Area);
    let results = pack(
        &[Dimension::new(10, 10), Dimension::new(1, 1)],
        &options(10, 10, false, keys),
    ).unwrap();
    let bins = &results[0].bins;
    assert_eq!(bins.len(), 2);
    assert_eq!(bins[0].placements, vec![Placement { index: 0, rect: rect(0, 0, 10, 10, false) }]);
    assert_eq!(bins[1].placements, vec![Placement { index: 1, rect: rect(0, 0, 1, 1, false) }]);
}

#[test]
fn forced_flip() {
    let keys = HeuristicSet::none().with(PackHeuristic::Area);
    let results = pack(&[Dimension::new(10, 3)], &options(3, 10, true, keys)).unwrap();
    let bins = &results[0].bins;
    assert_eq!(bins.len(), 1);
    assert_eq!(bins[0].placements, vec![Placement { index: 0, rect: rect(0, 0, 3, 10, true) }]);
    assert_eq!(bins[0].placements[0].rect.non_flipped_size(), Dimension::new(10, 3));
}

#[test]
fn flip_required_but_disabled() {
    let keys = HeuristicSet::none().with(PackHeuristic::Area);
    let err = pack(&[Dimension::new(10, 3)], &options(3, 10, false, keys)).unwrap_err();
    assert_eq!(err.0, "Some pieces do not fit bin size");
}

#[test]
fn slack_tie_break() {
    let mut node = Node::new(&Dimension::new(10, 10));
    let placed = node.insert(&Dimension::new(5, 5), 0, false);
    assert_eq!(placed, Some(rect(0, 0, 5, 5, false)));
    // equal slack cuts horizontally first: a strip on top, the rest below
    let strip = node.child1.as_ref().unwrap();
    let below = node.child2.as_ref().unwrap();
    assert_eq!(strip.bounds, rect(0, 0, 10, 5, false));
    assert_eq!(below.bounds, rect(0, 5, 10, 5, false));
    assert_eq!(below.id, None);
    let taken = strip.child1.as_ref().unwrap();
    let beside = strip.child2.as_ref().unwrap();
    assert_eq!(taken.bounds, rect(0, 0, 5, 5, false));
    assert_eq!(taken.id, Some(0));
    assert_eq!(beside.bounds, rect(5, 0, 5, 5, false));
    assert_eq!(beside.id, None);
    let next = node.insert(&Dimension::new(10, 5), 1, false);
    assert_eq!(next, Some(rect(0, 5, 10, 5, false)));
}

#[test]
fn slack_tie_break_in_a_bin() {
    let mut bin = Bin::new(&Dimension::new(10, 10));
    assert!(bin.insert(&Dimension::new(5, 5), 0, false));
    assert!(bin.insert(&Dimension::new(10, 5), 1, false));
    assert_eq!(
        bin.placements,
        vec![
            Placement { index: 0, rect: rect(0, 0, 5, 5, false) },
            Placement { index: 1, rect: rect(0, 5, 10, 5, false) },
        ]
    );
}
