use bytehound::range_map::RangeMap;

#[test]
fn basic() {
    let map = RangeMap::from_vec(vec![
        (0..10, 0),
        (100..1000, 1),
        (5000..6000, 2),
        (10000..20000, 3),
        (40000..40005, 4),
        (50000..55000, 5),
        (60000..65000, 6),
        (62500..70000, 7),
    ]);

    assert_eq!(map.get_value(0), Some(&0));
    assert_eq!(map.get_value(5), Some(&0));
    assert_eq!(map.get_value(9), Some(&0));
    assert_eq!(map.get_value(10), None);
    assert_eq!(map.get_value(100), Some(&1));
    assert_eq!(map.get_value(500), Some(&1));
    assert_eq!(map.get_value(5000), Some(&2));
    assert_eq!(map.get_value(10000), Some(&3));
    assert_eq!(map.get_value(40000), Some(&4));
    assert_eq!(map.get_value(50000), Some(&5));
    assert_eq!(map.get_value(62000), Some(&6));
    assert_eq!(map.get_value(68000), None);
}

#[test]
fn range_map_from_vec_sorts_and_drops_overlaps() {
    let map = RangeMap::from_vec(vec![(20..30, 'b'), (0..10, 'a'), (25..40, 'c'), (40..50, 'd')]);
    assert_eq!(map.len(), 3);
    assert_eq!(map.values(), vec![&'a', &'b', &'d']);
    assert_eq!(map.get_index(45), Some(2));
    assert_eq!(map.get(22), Some((20..30, &'b')));
    assert_eq!(map.get_by_index(0), Some((0..10, &'a')));
    assert_eq!(map.get_value_by_index(3), None);
}

#[test]
fn range_map_push_and_remove() {
    let mut map = RangeMap::new();
    assert!(map.is_empty());
    assert_eq!(map.push(10..20, 1), Ok(()));
    assert_eq!(map.push(0..5, 2), Ok(()));
    assert_eq!(map.push(15..25, 3), Err(1));
    assert_eq!(map.get_index_by_any_point(&(4..12)), Some(0));
    assert_eq!(map.remove_by_exact_range(0..5), Some(2));
    assert_eq!(map.remove_by_exact_range(0..5), None);
    assert_eq!(map.remove_by_index(0), (10..20, 1));
    assert!(map.is_empty());
}

#[test]
fn range_map_binary_search_on_many_entries() {
    let entries: Vec<_> = (0..20u64).map(|i| (i * 10..i * 10 + 5, i)).collect();
    let map = RangeMap::from_vec(entries);
    assert_eq!(map.get_value(93), Some(&9));
    assert_eq!(map.get_value(97), None);
    assert_eq!(map.get_index(190), Some(19));
    assert_eq!(map.into_vec().len(), 20);
}

#[test]
fn an_inverted_range_is_checked_for_overlap_like_any_other() {
    let mut map = RangeMap::new();
    assert_eq!(map.push(10..5, 1), Ok(()));
    assert_eq!(map.push(0..20, 2), Err(0));
    assert_eq!(map.push(20..30, 3), Ok(()));
    assert_eq!(map.len(), 2);
}
