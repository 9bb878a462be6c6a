use sprack::{compute_atlas_size, is_supported_format, Bin, Dimension, Placement, Rectangle};

#[test]
fn untrimmed_canvas_is_the_bin() {
    let mut bin = Bin::new(&Dimension::new(64, 32));
    assert!(bin.insert(&Dimension::new(10, 20), 0, false));
    assert_eq!(compute_atlas_size(&bin, false), (64, 32));
}

#[test]
fn trimmed_canvas_is_the_extent() {
    let mut bin = Bin::new(&Dimension::new(64, 32));
    assert!(bin.insert(&Dimension::new(10, 20), 0, false));
    assert!(bin.insert(&Dimension::new(30, 5), 1, false));
    assert!(bin.insert(&Dimension::new(4, 4), 2, false));
    // pieces at (0,0) 10x20, (10,0) 30x5, (0,20) 4x4
    assert_eq!(compute_atlas_size(&bin, true), (40, 24));
}

#[test]
fn trimmed_canvas_of_an_empty_bin() {
    let bin = Bin::new(&Dimension::new(64, 32));
    assert_eq!(compute_atlas_size(&bin, true), (1, 1));
}

#[test]
fn picture_formats() {
    for name in ["png", "bmp", "gif", "jpg", "jpeg", "ico", "tiff", "webp", "ppm"] {
        assert!(is_supported_format(name));
    }
    assert!(is_supported_format("PNG"));
    assert!(is_supported_format("Jpeg"));
    assert!(is_supported_format("tIfF"));
}

#[test]
fn other_formats() {
    for name in ["", "pn", "pngx", "txt", "svg", "tif", "p ng", "pn\u{e9}", "\u{130}co", "@ng", "[ng", "pNG\u{0}"] {
        assert!(!is_supported_format(name));
    }
}

#[test]
fn smallest_is_the_first_of_the_least() {
    assert_eq!(sprack::smallest(&[]), None);
    assert_eq!(sprack::smallest(&[7]), Some(0));
    assert_eq!(sprack::smallest(&[9, 4, 6, 4, 8]), Some(1));
    assert_eq!(sprack::smallest(&[3, 3, 3]), Some(0));
    assert_eq!(sprack::smallest(&[u64::MAX, 5, 0]), Some(2));
}

#[test]
fn mark_of_a_sample() {
    assert_eq!(sprack::mark_points(8, 8), vec![(3, 3), (5, 3), (4, 2), (4, 3), (4, 4), (4, 5)]);
    assert_eq!(sprack::mark_points(3, 4), vec![(0, 3), (2, 3)]);
    for (x, y) in sprack::mark_points(63, 9) {
        assert!(x < 63 && y < 9);
    }
}

#[test]
fn options_from_flags() {
    let square = sprack::PackOptions::from_flags(Some(256), 1024, 512, true, false, 3);
    assert_eq!(square.bin_size, Dimension::new(256, 256));
    assert!(square.flipping);
    assert!(!square.trim);
    assert_eq!(square.atlas_compact_steps, 3);
    assert_eq!(square.pack_heuristics, sprack::HeuristicSet::all());
    let oblong = sprack::PackOptions::from_flags(None, 1024, 512, false, true, 0);
    assert_eq!(oblong.bin_size, Dimension::new(1024, 512));
    assert!(!oblong.flipping);
    assert!(oblong.trim);
}

#[test]
fn trimmed_canvas_of_a_bin_filled_by_hand() {
    let mut bin = Bin::new(&Dimension::new(8, 8));
    bin.placements.push(Placement { index: 0, rect: Rectangle { x: 5, y: 6, size: Dimension::new(20, 1), flipped: false } });
    assert_eq!(compute_atlas_size(&bin, true), (25, 7));
    assert_eq!(compute_atlas_size(&bin, false), (8, 8));
}
