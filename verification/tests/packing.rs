use sprack::{pack, Bin, Dimension, HeuristicSet, PackHeuristic, PackOptions, PackResult, Placement, Rectangle};
use sprack::pack::{new_bin, number, offer, pack_sorted, pack_with, try_insert, try_insert_with_growth};

fn options(w: u32, h: u32, steps: u8, flipping: bool, keys: HeuristicSet) -> PackOptions {
    PackOptions { bin_size: Dimension::new(w, h), atlas_compact_steps: steps, flipping, trim: false, pack_heuristics: keys }
}

fn only(key: PackHeuristic) -> HeuristicSet {
    HeuristicSet::none().with(key)
}

fn dims(list: &[(u32, u32)]) -> Vec<Dimension> {
    list.iter().map(|d| Dimension::new(d.0, d.1)).collect()
}

fn placement(index: u32, x: u32, y: u32, w: u32, h: u32, flipped: bool) -> Placement {
    Placement { index, rect: Rectangle { x, y, size: Dimension::new(w, h), flipped } }
}

fn overlap(a: &Rectangle, b: &Rectangle) -> bool {
    a.size.w > 0 && a.size.h > 0 && b.size.w > 0 && b.size.h > 0
        && a.l() < b.r() && b.l() < a.r() && a.t() < b.b() && b.t() < a.b()
}

/// Checks that every box is placed once, inside its bin, apart from the
/// others, and in its own size up to a quarter turn.
fn check(inputs: &[Dimension], options: &PackOptions, result: &PackResult) {
    let mut seen = vec![0u32; inputs.len()];
    for bin in &result.bins {
        assert!(bin.size.w <= options.bin_size.w.max(1) && bin.size.h <= options.bin_size.h.max(1));
        for (i, p) in bin.placements.iter().enumerate() {
            seen[p.index as usize] += 1;
            assert!(p.rect.r() <= bin.size.w);
            assert!(p.rect.b() <= bin.size.h);
            let wanted = inputs[p.index as usize];
            if p.rect.flipped {
                assert!(options.flipping);
                assert_eq!(p.rect.size, Dimension::new(wanted.h, wanted.w));
            } else {
                assert_eq!(p.rect.size, wanted);
            }
            assert_eq!(p.rect.non_flipped_size(), wanted);
            for q in &bin.placements[i + 1..] {
                assert!(!overlap(&p.rect, &q.rect));
            }
        }
    }
    assert_eq!(seen, vec![1u32; inputs.len()]);
}

/// Boxes of many sizes, the same on every run.
fn many(count: usize, largest: u32) -> Vec<Dimension> {
    let mut state: u64 = 0x2545_F491_4F6C_DD1D;
    let mut list = Vec::new();
    for _ in 0..count {
        state ^= state << 13;
        state ^= state >> 7;
        state ^= state << 17;
        let w = 1 + (state % largest as u64) as u32;
        let h = 1 + ((state >> 20) % largest as u64) as u32;
        list.push(Dimension::new(w, h));
    }
    list
}

#[test]
fn no_keys_is_an_error() {
    let err = pack(&dims(&[(1, 1)]), &options(10, 10, 0, false, HeuristicSet::none())).unwrap_err();
    assert_eq!(err.0, "No heuristics supplied");
    let err = pack(&[], &options(10, 10, 0, false, HeuristicSet::none())).unwrap_err();
    assert_eq!(err.0, "No heuristics supplied");
}

#[test]
fn no_keys_is_reported_before_a_piece_that_is_too_large() {
    let err = pack(&dims(&[(11, 11)]), &options(10, 10, 0, false, HeuristicSet::none())).unwrap_err();
    assert_eq!(err.0, "No heuristics supplied");
}

#[test]
fn piece_wider_and_taller_is_an_error() {
    let err = pack(&dims(&[(1, 1), (11, 11)]), &options(10, 10, 0, false, HeuristicSet::all())).unwrap_err();
    assert_eq!(err.0, "Some pieces do not fit bin size");
}

#[test]
fn piece_too_long_is_an_error_even_if_it_may_turn() {
    let err = pack(&dims(&[(11, 2)]), &options(10, 10, 0, true, HeuristicSet::all())).unwrap_err();
    assert_eq!(err.0, "Some pieces do not fit bin size");
    let err = pack(&dims(&[(11, 11)]), &options(10, 10, 0, true, HeuristicSet::all())).unwrap_err();
    assert_eq!(err.0, "Some pieces do not fit bin size");
}

#[test]
fn piece_too_large_is_an_error_where_bins_grow() {
    let err = pack(&dims(&[(11, 2)]), &options(10, 10, 3, false, HeuristicSet::all())).unwrap_err();
    assert_eq!(err.0, "Some pieces do not fit bin size");
}

#[test]
fn nothing_to_pack_gives_one_empty_bin() {
    let results = pack(&[], &options(10, 10, 0, false, only(PackHeuristic::Width))).unwrap();
    assert_eq!(results.len(), 1);
    assert_eq!(results[0].bins.len(), 1);
    assert_eq!(results[0].bins[0].size, Dimension::new(10, 10));
    assert!(results[0].bins[0].placements.is_empty());
}

#[test]
fn one_outcome_for_each_key_in_order() {
    let keys = HeuristicSet::none().with(PackHeuristic::SquarenessArea).with(PackHeuristic::Width).with(
        PackHeuristic::Perimeter,
    );
    let results = pack(&dims(&[(3, 4), (5, 6)]), &options(10, 10, 0, false, keys)).unwrap();
    let got: Vec<PackHeuristic> = results.iter().map(|r| r.heuristics).collect();
    assert_eq!(got, vec![PackHeuristic::Perimeter, PackHeuristic::Width, PackHeuristic::SquarenessArea]);
    let results = pack(&dims(&[(3, 4), (5, 6)]), &PackOptions::default()).unwrap();
    let got: Vec<PackHeuristic> = results.iter().map(|r| r.heuristics).collect();
    assert_eq!(got, PackHeuristic::all());
}

#[test]
fn each_key_packs_in_its_own_order() {
    // by width the flat piece comes first, by height the tall one
    let inputs = dims(&[(2, 9), (9, 2)]);
    let keys = HeuristicSet::none().with(PackHeuristic::Width).with(PackHeuristic::Height);
    let results = pack(&inputs, &options(10, 10, 0, false, keys)).unwrap();
    assert_eq!(results[0].heuristics, PackHeuristic::Width);
    assert_eq!(results[0].bins[0].placements[0], placement(1, 0, 0, 9, 2, false));
    assert_eq!(results[1].heuristics, PackHeuristic::Height);
    assert_eq!(results[1].bins[0].placements[0], placement(0, 0, 0, 2, 9, false));
}

#[test]
fn packing_without_turns() {
    let inputs = dims(&[(3, 7), (5, 5), (8, 2), (1, 9), (6, 6), (2, 2), (4, 5)]);
    let results = pack(&inputs, &options(10, 10, 0, false, only(PackHeuristic::Area))).unwrap();
    let bins = &results[0].bins;
    assert_eq!(bins.len(), 5);
    assert_eq!(
        bins[0].placements,
        vec![placement(4, 0, 0, 6, 6, false), placement(6, 6, 0, 4, 5, false), placement(5, 0, 6, 2, 2, false)]
    );
    assert_eq!(bins[1].placements, vec![placement(1, 0, 0, 5, 5, false)]);
    assert_eq!(bins[2].placements, vec![placement(0, 0, 0, 3, 7, false)]);
    assert_eq!(bins[3].placements, vec![placement(2, 0, 0, 8, 2, false)]);
    assert_eq!(bins[4].placements, vec![placement(3, 0, 0, 1, 9, false)]);
    check(&inputs, &options(10, 10, 0, false, only(PackHeuristic::Area)), &results[0]);
}

#[test]
fn packing_with_turns() {
    let inputs = dims(&[(3, 7), (5, 5), (8, 2), (1, 9), (6, 6), (2, 2), (4, 5)]);
    let keys = HeuristicSet::none().with(PackHeuristic::Area).with(PackHeuristic::Height);
    let results = pack(&inputs, &options(10, 10, 0, true, keys)).unwrap();
    let bins = &results[0].bins;
    assert_eq!(bins.len(), 3);
    assert_eq!(
        bins[0].placements,
        vec![placement(4, 0, 0, 6, 6, false), placement(6, 6, 0, 4, 5, false), placement(5, 0, 6, 2, 2, false)]
    );
    assert_eq!(bins[1].placements, vec![placement(1, 0, 0, 5, 5, false), placement(0, 0, 5, 7, 3, true)]);
    assert_eq!(bins[2].placements, vec![placement(2, 0, 0, 8, 2, false), placement(3, 0, 2, 9, 1, true)]);
    let bins = &results[1].bins;
    assert_eq!(bins.len(), 2);
    assert_eq!(
        bins[0].placements,
        vec![
            placement(3, 0, 0, 1, 9, false),
            placement(0, 1, 0, 3, 7, false),
            placement(4, 4, 0, 6, 6, false),
            placement(6, 4, 6, 5, 4, true),
            placement(5, 1, 7, 2, 2, false),
        ]
    );
    assert_eq!(bins[1].placements, vec![placement(1, 0, 0, 5, 5, false), placement(2, 0, 5, 8, 2, false)]);
}

#[test]
fn growing_bin_starts_small() {
    let bin = new_bin(&options(100, 100, 3, false, HeuristicSet::all()));
    assert_eq!(bin.size, Dimension::new(25, 25));
    let bin = new_bin(&options(100, 30, 0, false, HeuristicSet::all()));
    assert_eq!(bin.size, Dimension::new(100, 30));
    let bin = new_bin(&options(3, 0, 7, false, HeuristicSet::all()));
    assert_eq!(bin.size, Dimension::new(1, 1));
    let bin = new_bin(&options(1000, 512, 255, false, HeuristicSet::all()));
    assert_eq!(bin.size, Dimension::new(3, 2));
}

#[test]
fn growing_bin_grows_by_strides() {
    let results = pack(&dims(&[(30, 30)]), &options(100, 100, 3, false, only(PackHeuristic::Area))).unwrap();
    assert_eq!(results[0].bins.len(), 1);
    assert_eq!(results[0].bins[0].size, Dimension::new(50, 50));
    assert_eq!(results[0].bins[0].placements, vec![placement(0, 0, 0, 30, 30, false)]);
}

#[test]
fn growing_bin_places_its_pieces_anew() {
    let inputs = dims(&[(30, 30), (20, 20), (60, 60)]);
    let results = pack(&inputs, &options(100, 100, 3, false, only(PackHeuristic::Area))).unwrap();
    assert_eq!(results[0].bins.len(), 1);
    assert_eq!(results[0].bins[0].size, Dimension::new(100, 100));
    assert_eq!(
        results[0].bins[0].placements,
        vec![placement(2, 0, 0, 60, 60, false), placement(0, 60, 0, 30, 30, false), placement(1, 60, 30, 20, 20, false)]
    );
}

#[test]
fn growing_goes_on_after_a_size_that_cannot_be_taken() {
    // on the way up one size cannot hold the pieces placed anew; the next can
    let inputs = dims(&[(7, 3), (11, 3), (4, 10), (2, 12), (6, 6)]);
    let results = pack(&inputs, &options(24, 16, 4, false, only(PackHeuristic::Area))).unwrap();
    assert_eq!(results[0].bins.len(), 1);
    assert_eq!(results[0].bins[0].size, Dimension::new(24, 16));
    assert_eq!(
        results[0].bins[0].placements,
        vec![
            placement(2, 0, 0, 4, 10, false),
            placement(4, 4, 0, 6, 6, false),
            placement(1, 10, 0, 11, 3, false),
            placement(3, 10, 3, 2, 12, false),
            placement(0, 12, 3, 7, 3, false),
        ]
    );
}

#[test]
fn growing_with_the_most_steps() {
    let inputs = dims(&[(300, 200), (512, 512), (1, 1)]);
    let opts = options(512, 512, 255, true, HeuristicSet::all());
    let results = pack(&inputs, &opts).unwrap();
    assert_eq!(results.len(), 7);
    for result in &results {
        check(&inputs, &opts, result);
    }
}

#[test]
fn new_bin_grows_for_a_piece_larger_than_its_first_size() {
    // the first bin is full; the bin opened for the second piece starts at 5x5 and grows
    let inputs = dims(&[(10, 10), (8, 8)]);
    let opts = options(10, 10, 1, false, only(PackHeuristic::Area));
    let results = pack(&inputs, &opts).unwrap();
    let bins = &results[0].bins;
    assert_eq!(bins.len(), 2);
    assert_eq!(bins[0].placements, vec![placement(0, 0, 0, 10, 10, false)]);
    assert_eq!(bins[1].size, Dimension::new(10, 10));
    assert_eq!(bins[1].placements, vec![placement(1, 0, 0, 8, 8, false)]);
}

#[test]
fn try_insert_does_not_grow() {
    let opts = options(100, 100, 3, false, HeuristicSet::all());
    let mut bin = new_bin(&opts);
    assert!(!try_insert(&mut bin, &Dimension::new(30, 30), 0, &opts));
    assert_eq!(bin.size, Dimension::new(25, 25));
    assert!(try_insert(&mut bin, &Dimension::new(25, 20), 1, &opts));
    assert_eq!(bin.placements, vec![placement(1, 0, 0, 25, 20, false)]);
}

#[test]
fn try_insert_with_growth_stops_at_the_largest_size() {
    let opts = options(100, 60, 3, false, HeuristicSet::all());
    let mut bin = new_bin(&opts);
    assert_eq!(bin.size, Dimension::new(25, 15));
    assert!(try_insert_with_growth(&mut bin, &Dimension::new(90, 50), 0, &opts));
    assert_eq!(bin.size, Dimension::new(100, 60));
    assert!(!try_insert_with_growth(&mut bin, &Dimension::new(90, 50), 1, &opts));
    assert_eq!(bin.size, Dimension::new(100, 60));
    assert_eq!(bin.placements, vec![placement(0, 0, 0, 90, 50, false)]);
    assert!(!try_insert_with_growth(&mut bin, &Dimension::new(101, 1), 2, &opts));
}

#[test]
fn growth_near_the_largest_coordinate() {
    let opts = options(u32::MAX, u32::MAX, 1, false, HeuristicSet::all());
    let mut bin = new_bin(&opts);
    assert_eq!(bin.size, Dimension::new(u32::MAX / 2, u32::MAX / 2));
    assert!(try_insert_with_growth(&mut bin, &Dimension::new(u32::MAX, u32::MAX), 0, &opts));
    assert_eq!(bin.size, Dimension::new(u32::MAX, u32::MAX));
    assert_eq!(bin.placements, vec![placement(0, 0, 0, u32::MAX, u32::MAX, false)]);
}

#[test]
fn offer_follows_the_options() {
    let fixed = options(100, 100, 0, false, HeuristicSet::all());
    let mut bin = Bin::new(&Dimension::new(25, 25));
    assert!(!offer(&mut bin, &Dimension::new(30, 30), 0, &fixed));
    assert_eq!(bin.size, Dimension::new(25, 25));
    let growing = options(100, 100, 3, false, HeuristicSet::all());
    let mut bin = Bin::new(&Dimension::new(25, 25));
    assert!(offer(&mut bin, &Dimension::new(30, 30), 0, &growing));
    assert_eq!(bin.size, Dimension::new(50, 50));
}

#[test]
fn numbering() {
    let inputs = number(&dims(&[(3, 4), (5, 6), (3, 4)]));
    assert_eq!(inputs.len(), 3);
    for (i, input) in inputs.iter().enumerate() {
        assert_eq!(input.id, i as u32);
    }
    assert_eq!(inputs[1].dim, Dimension::new(5, 6));
    assert_eq!(inputs[2].dim, Dimension::new(3, 4));
}

#[test]
fn pack_sorted_keeps_the_given_order() {
    let opts = options(10, 10, 0, false, HeuristicSet::all());
    let inputs = number(&dims(&[(1, 1), (10, 10), (2, 2)]));
    let bins = pack_sorted(&inputs, &opts);
    assert_eq!(bins.len(), 2);
    // beside the first piece only a strip of height one is left, so the third goes below
    assert_eq!(bins[0].placements, vec![placement(0, 0, 0, 1, 1, false), placement(2, 0, 1, 2, 2, false)]);
    assert_eq!(bins[1].placements, vec![placement(1, 0, 0, 10, 10, false)]);
}

#[test]
fn pack_with_sorts_first() {
    let opts = options(10, 10, 0, false, HeuristicSet::all());
    let inputs = number(&dims(&[(1, 1), (10, 10), (2, 2)]));
    let result = pack_with(&inputs, &opts, PackHeuristic::Area);
    assert_eq!(result.heuristics, PackHeuristic::Area);
    assert_eq!(result.bins.len(), 2);
    assert_eq!(result.bins[0].placements, vec![placement(1, 0, 0, 10, 10, false)]);
    assert_eq!(result.bins[1].placements, vec![placement(2, 0, 0, 2, 2, false), placement(0, 2, 0, 1, 1, false)]);
}

#[test]
fn every_box_is_placed_once_and_apart() {
    let inputs = many(300, 40);
    for flipping in [false, true] {
        for steps in [0u8, 1, 3, 10] {
            let opts = options(128, 96, steps, flipping, HeuristicSet::all());
            let results = pack(&inputs, &opts).unwrap();
            assert_eq!(results.len(), 7);
            for result in &results {
                check(&inputs, &opts, result);
            }
        }
    }
}

#[test]
fn every_box_is_placed_where_turning_is_needed() {
    let inputs = many(120, 50);
    let opts = options(50, 200, 2, true, HeuristicSet::all());
    let results = pack(&inputs, &opts).unwrap();
    for result in &results {
        check(&inputs, &opts, result);
    }
}

#[test]
fn boxes_without_extent_are_placed() {
    let inputs = dims(&[(0, 0), (0, 5), (3, 0), (2, 2)]);
    let opts = options(4, 5, 0, false, HeuristicSet::all());
    let results = pack(&inputs, &opts).unwrap();
    assert_eq!(results.len(), 7);
    for result in &results {
        check(&inputs, &opts, result);
    }
}

#[test]
fn two_runs_agree() {
    let inputs = many(200, 30);
    let opts = options(100, 100, 2, true, HeuristicSet::all());
    let first = pack(&inputs, &opts).unwrap();
    let second = pack(&inputs, &opts).unwrap();
    assert_eq!(first.len(), second.len());
    for (a, b) in first.iter().zip(second.iter()) {
        assert_eq!(a.heuristics, b.heuristics);
        assert_eq!(a.bins, b.bins);
    }
}
