use stat_core::ranges_overlap;

#[test]
fn disjoint_ranges_do_not_overlap() {
    assert!(!ranges_overlap(0, 16, 16, 16));
    assert!(!ranges_overlap(32, 8, 0, 32));
}

#[test]
fn nested_and_partial_ranges_overlap() {
    assert!(ranges_overlap(0, 16, 8, 16));
    assert!(ranges_overlap(8, 16, 0, 16));
    assert!(ranges_overlap(0, 64, 8, 8));
    assert!(ranges_overlap(100, 1, 100, 1));
}

#[test]
fn range_end_wraps_around_the_address_space() {
    assert!(!ranges_overlap(usize::MAX - 3, 8, 0, 4));
    assert!(!ranges_overlap(usize::MAX - 3, 4, usize::MAX - 3, 4));
}
