use bytehound::binary_search_range;

#[test]
fn test_binary_search_range() {
    assert_eq!(binary_search_range(&[86, 87][..], None, Some(86)), 0..1);

    assert_eq!(binary_search_range(&[0, 80, 80][..], Some(80), None), 1..3);

    assert_eq!(binary_search_range(&[0, 1, 1, 1, 1, 1, 1, 1, 1, 1, 2][..], Some(1), Some(1)), 1..10);
}

#[test]
fn binary_search_range_out_of_bounds() {
    assert_eq!(binary_search_range(&[][..], Some(1), Some(2)), 0..0);
    assert_eq!(binary_search_range(&[3, 4, 5][..], Some(6), None), 0..0);
    assert_eq!(binary_search_range(&[3, 4, 5][..], None, Some(2)), 0..0);
    assert_eq!(binary_search_range(&[3, 4, 5][..], None, None), 0..3);
    assert_eq!(binary_search_range(&[1, 3, 5, 7][..], Some(2), Some(6)), 1..3);
}
