use sprack::{Dimension, Fit, Rectangle};

#[test]
fn fit_exact_without_turn() {
    assert_eq!(Dimension::new(4, 7).fits(&Dimension::new(4, 7)), Fit::Exact(false));
}

#[test]
fn fit_exact_with_turn() {
    assert_eq!(Dimension::new(4, 7).fits(&Dimension::new(7, 4)), Fit::Exact(true));
}

#[test]
fn fit_square_is_exact_without_turn() {
    assert_eq!(Dimension::new(5, 5).fits(&Dimension::new(5, 5)), Fit::Exact(false));
}

#[test]
fn fit_loose_without_turn() {
    assert_eq!(Dimension::new(10, 10).fits(&Dimension::new(4, 7)), Fit::Yes(false));
    assert_eq!(Dimension::new(4, 8).fits(&Dimension::new(4, 7)), Fit::Yes(false));
}

#[test]
fn fit_loose_prefers_no_turn() {
    // both orientations fit: the unrotated one is reported
    assert_eq!(Dimension::new(9, 9).fits(&Dimension::new(3, 8)), Fit::Yes(false));
}

#[test]
fn fit_loose_with_turn() {
    assert_eq!(Dimension::new(8, 4).fits(&Dimension::new(3, 7)), Fit::Yes(true));
}

#[test]
fn fit_none() {
    assert_eq!(Dimension::new(8, 4).fits(&Dimension::new(5, 5)), Fit::No);
    assert_eq!(Dimension::new(3, 3).fits(&Dimension::new(4, 1)), Fit::No);
}

#[test]
fn fit_is_exact_only_for_the_same_sides() {
    for aw in 0..5u32 {
        for ah in 0..5u32 {
            for bw in 0..5u32 {
                for bh in 0..5u32 {
                    let fit = Dimension::new(aw, ah).fits(&Dimension::new(bw, bh));
                    let same = (aw == bw && ah == bh) || (aw == bh && ah == bw);
                    assert_eq!(matches!(fit, Fit::Exact(_)), same);
                }
            }
        }
    }
}

#[test]
fn fit_allowance() {
    assert!(!Fit::No.is_allowed(true));
    assert!(!Fit::No.is_allowed(false));
    assert!(Fit::Yes(false).is_allowed(false));
    assert!(Fit::Exact(false).is_allowed(false));
    assert!(!Fit::Yes(true).is_allowed(false));
    assert!(!Fit::Exact(true).is_allowed(false));
    assert!(Fit::Yes(true).is_allowed(true));
    assert!(Fit::Exact(true).is_allowed(true));
}

#[test]
fn rectangle_edges() {
    let r = Rectangle { x: 3, y: 4, size: Dimension::new(10, 20), flipped: false };
    assert_eq!(r.l(), 3);
    assert_eq!(r.t(), 4);
    assert_eq!(r.r(), 13);
    assert_eq!(r.b(), 24);
}

#[test]
fn rectangle_edges_at_the_largest_coordinate() {
    let r = Rectangle { x: u32::MAX - 1, y: u32::MAX, size: Dimension::new(1, 0), flipped: false };
    assert_eq!(r.r(), u32::MAX);
    assert_eq!(r.b(), u32::MAX);
}

#[test]
fn rectangle_original_size() {
    let lying = Rectangle { x: 0, y: 0, size: Dimension::new(3, 10), flipped: true };
    assert_eq!(lying.non_flipped_size(), Dimension::new(10, 3));
    let upright = Rectangle { x: 0, y: 0, size: Dimension::new(3, 10), flipped: false };
    assert_eq!(upright.non_flipped_size(), Dimension::new(3, 10));
}
