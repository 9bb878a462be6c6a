use sprack::{Bin, Dimension, Node, Placement, Rectangle};

fn rect(x: u32, y: u32, w: u32, h: u32, flipped: bool) -> Rectangle {
    Rectangle { x, y, size: Dimension::new(w, h), flipped }
}

fn placement(index: u32, x: u32, y: u32, w: u32, h: u32, flipped: bool) -> Placement {
    Placement { index, rect: rect(x, y, w, h, flipped) }
}

#[test]
fn new_bin_is_empty() {
    let bin = Bin::new(&Dimension::new(7, 9));
    assert_eq!(bin.size, Dimension::new(7, 9));
    assert_eq!(bin.size(), Dimension::new(7, 9));
    assert!(bin.placements.is_empty());
    assert!(bin.placements().is_empty());
}

#[test]
fn node_constructors() {
    let node = Node::new(&Dimension::new(7, 9));
    assert_eq!(node.bounds, rect(0, 0, 7, 9, false));
    assert_eq!(node.id, None);
    assert!(node.child1.is_none() && node.child2.is_none());
    let boxed = Node::from_bound_box(2, 3, 10, 4);
    assert_eq!(boxed.bounds, rect(2, 3, 8, 1, false));
    let given = Node::from_rect(rect(1, 2, 3, 4, true));
    assert_eq!(given.bounds, rect(1, 2, 3, 4, true));
    assert_eq!(given.clone(), given);
}

#[test]
fn wide_slack_cuts_vertically() {
    // slack 7 in width against 2 in height: the first cut is vertical
    let mut node = Node::new(&Dimension::new(10, 5));
    assert_eq!(node.insert(&Dimension::new(3, 3), 0, false), Some(rect(0, 0, 3, 3, false)));
    assert_eq!(node.child1.as_ref().unwrap().bounds, rect(0, 0, 3, 5, false));
    assert_eq!(node.child2.as_ref().unwrap().bounds, rect(3, 0, 7, 5, false));
    let strip = node.child1.as_ref().unwrap();
    assert_eq!(strip.child1.as_ref().unwrap().bounds, rect(0, 0, 3, 3, false));
    assert_eq!(strip.child2.as_ref().unwrap().bounds, rect(0, 3, 3, 2, false));
}

#[test]
fn full_height_piece_needs_one_cut() {
    let mut node = Node::new(&Dimension::new(10, 5));
    assert_eq!(node.insert(&Dimension::new(4, 5), 0, false), Some(rect(0, 0, 4, 5, false)));
    let taken = node.child1.as_ref().unwrap();
    assert_eq!(taken.id, Some(0));
    assert!(taken.child1.is_none());
    assert_eq!(node.child2.as_ref().unwrap().bounds, rect(4, 0, 6, 5, false));
}

#[test]
fn node_turns_a_piece_that_fits_only_turned() {
    let mut node = Node::new(&Dimension::new(4, 10));
    assert_eq!(node.insert(&Dimension::new(8, 3), 5, false), None);
    assert!(node.child1.is_none());
    // the piece lies turned in the corner; left over are 1x8 beside it and 4x2 below
    assert_eq!(node.insert(&Dimension::new(8, 3), 5, true), Some(rect(0, 0, 3, 8, true)));
    assert_eq!(node.insert(&Dimension::new(1, 10), 6, true), None);
    assert_eq!(node.insert(&Dimension::new(1, 8), 6, true), Some(rect(3, 0, 1, 8, false)));
    assert_eq!(node.insert(&Dimension::new(2, 3), 7, true), Some(rect(0, 8, 3, 2, true)));
    assert_eq!(node.insert(&Dimension::new(4, 2), 8, true), None);
    assert_eq!(node.insert(&Dimension::new(1, 1), 9, true), Some(rect(3, 8, 1, 1, false)));
}

#[test]
fn taken_leaf_takes_nothing() {
    let mut node = Node::new(&Dimension::new(4, 4));
    assert_eq!(node.insert(&Dimension::new(4, 4), 0, false), Some(rect(0, 0, 4, 4, false)));
    assert_eq!(node.id, Some(0));
    assert_eq!(node.insert(&Dimension::new(1, 1), 1, false), None);
    assert_eq!(node.insert(&Dimension::new(0, 0), 2, false), None);
}

#[test]
fn first_free_leaf_wins() {
    let mut node = Node::new(&Dimension::new(10, 10));
    assert_eq!(node.insert(&Dimension::new(5, 5), 0, false), Some(rect(0, 0, 5, 5, false)));
    // fits both free leaves: the one beside the first piece comes first
    assert_eq!(node.insert(&Dimension::new(2, 2), 1, false), Some(rect(5, 0, 2, 2, false)));
    assert_eq!(node.insert(&Dimension::new(5, 3), 2, false), Some(rect(5, 2, 5, 3, false)));
    assert_eq!(node.insert(&Dimension::new(3, 2), 3, false), Some(rect(7, 0, 3, 2, false)));
}

#[test]
fn bin_refuses_what_is_larger_than_the_last_refusal() {
    let mut bin = Bin::new(&Dimension::new(10, 10));
    assert!(bin.insert(&Dimension::new(6, 6), 0, false));
    assert!(!bin.insert(&Dimension::new(6, 6), 1, false));
    // neither fits inside six by six, so neither is looked at, though there is room
    assert!(!bin.insert(&Dimension::new(7, 1), 2, false));
    assert!(!bin.insert(&Dimension::new(1, 7), 3, false));
    assert!(bin.insert(&Dimension::new(4, 4), 4, false));
    assert_eq!(bin.placements, vec![placement(0, 0, 0, 6, 6, false), placement(4, 6, 0, 4, 4, false)]);
}

#[test]
fn bin_refuses_a_turn_that_is_not_allowed() {
    let mut bin = Bin::new(&Dimension::new(3, 10));
    assert!(!bin.insert(&Dimension::new(10, 3), 0, false));
    assert!(bin.placements.is_empty());
    assert!(bin.insert(&Dimension::new(10, 3), 0, true));
    assert_eq!(bin.placements, vec![placement(0, 0, 0, 3, 10, true)]);
}

#[test]
fn resize_places_anew() {
    let mut bin = Bin::new(&Dimension::new(10, 10));
    assert!(bin.insert(&Dimension::new(10, 3), 0, true));
    assert!(bin.resize(Dimension::new(3, 10), true));
    assert_eq!(bin.size, Dimension::new(3, 10));
    assert_eq!(bin.placements, vec![placement(0, 0, 0, 3, 10, true)]);
    // back again: the piece is placed in its own size, not in the turned one
    assert!(bin.resize(Dimension::new(10, 10), true));
    assert_eq!(bin.size, Dimension::new(10, 10));
    assert_eq!(bin.placements, vec![placement(0, 0, 0, 10, 3, false)]);
    assert!(bin.insert(&Dimension::new(10, 7), 1, true));
}

#[test]
fn resize_resets_the_last_refusal() {
    let mut bin = Bin::new(&Dimension::new(4, 4));
    assert!(bin.insert(&Dimension::new(3, 3), 0, false));
    assert!(!bin.insert(&Dimension::new(2, 2), 1, false));
    assert!(!bin.insert(&Dimension::new(4, 1), 2, false));
    assert!(bin.resize(Dimension::new(8, 4), false));
    assert!(bin.insert(&Dimension::new(4, 1), 2, false));
    assert_eq!(bin.placements, vec![placement(0, 0, 0, 3, 3, false), placement(2, 3, 0, 4, 1, false)]);
}

#[test]
fn resize_that_fails_changes_nothing() {
    let mut bin = Bin::new(&Dimension::new(10, 10));
    assert!(bin.insert(&Dimension::new(10, 3), 0, true));
    assert!(bin.insert(&Dimension::new(2, 5), 1, true));
    let before = bin.clone();
    assert!(!bin.resize(Dimension::new(3, 12), true));
    assert_eq!(bin, before);
    assert!(!bin.resize(Dimension::new(2, 2), true));
    assert_eq!(bin, before);
}

#[test]
fn resize_to_a_larger_size_can_fail() {
    let mut bin = Bin::new(&Dimension::new(10, 10));
    assert!(bin.insert(&Dimension::new(5, 1), 0, false));
    assert!(bin.insert(&Dimension::new(4, 4), 1, false));
    assert!(bin.insert(&Dimension::new(2, 9), 2, false));
    let before = bin.clone();
    assert!(!bin.resize(Dimension::new(12, 13), false));
    assert_eq!(bin, before);
}

#[test]
fn resize_counts_a_side_of_zero_as_one() {
    let mut bin = Bin::new(&Dimension::new(5, 5));
    assert!(bin.resize(Dimension::new(0, 0), false));
    assert_eq!(bin.size, Dimension::new(1, 1));
    assert!(bin.insert(&Dimension::new(1, 1), 0, false));
    assert_eq!(bin.placements, vec![placement(0, 0, 0, 1, 1, false)]);
}
