use bytehound::fast_range_map::RangeMap;

#[test]
fn test_insert_overlapping_at_the_start() {
    let mut map = RangeMap::new();
    map.insert(2..10, 0);
    map.insert(0..4, 1);
    assert_eq!(map.into_vec(), vec![((0..4), 1), ((4..10), 0)]);
}

#[test]
fn test_insert_overlapping_at_the_end() {
    let mut map = RangeMap::new();
    map.insert(0..4, 0);
    map.insert(2..10, 1);
    assert_eq!(map.into_vec(), vec![((0..2), 0), ((2..10), 1)]);
}

#[test]
fn test_insert_exactly_overlapping() {
    let mut map = RangeMap::new();
    map.insert(2..10, 0);
    map.insert(2..10, 1);
    assert_eq!(map.into_vec(), vec![((2..10), 1)]);
}

#[test]
fn test_insert_bigger_overlapping() {
    let mut map = RangeMap::new();
    map.insert(4..6, 0);
    map.insert(2..8, 1);
    assert_eq!(map.into_vec(), vec![((2..8), 1)]);
}

#[test]
fn test_insert_smaller_overlapping() {
    let mut map = RangeMap::new();
    map.insert(2..8, 0);
    map.insert(4..6, 1);
    assert_eq!(map.into_vec(), vec![((2..4), 0), ((4..6), 1), ((6..8), 0)]);
}

#[test]
fn test_insert_longer_then_shorter() {
    let mut map = RangeMap::new();
    map.insert(2..8, 0);
    map.insert(2..6, 1);
    assert_eq!(map.into_vec(), vec![((2..6), 1), ((6..8), 0)]);
}

#[test]
fn test_overlapping_two() {
    let mut map = RangeMap::new();
    map.insert(4..30, 0);
    map.insert(8..20, 1);
    assert_eq!(map.clone().into_vec(), vec![((4..8), 0), ((8..20), 1), ((20..30), 0)]);

    map.insert(4..16, 2);
    assert_eq!(map.into_vec(), vec![((4..16), 2), ((16..20), 1), ((20..30), 0)]);
}

#[test]
fn test_case_1() {
    let mut map = RangeMap::new();
    map.insert(0..10, 0);
    map.insert(8..12, 1);
    map.insert(0..1, 2);
    map.insert(8..18, 3);

    assert_eq!(map.into_vec(), vec![((0..1), 2), ((1..8), 0), ((8..18), 3)]);
}

#[test]
fn test_get_value() {
    let mut map = RangeMap::new();
    map.insert(1..8, 0);
    map.insert(10..18, 1);
    map.insert(18..28, 2);

    assert_eq!(map.get_value(0), None);
    assert_eq!(map.get_value(1), Some(0));
    assert_eq!(map.get_value(2), Some(0));
    assert_eq!(map.get_value(7), Some(0));
    assert_eq!(map.get_value(8), None);
    assert_eq!(map.get_value(9), None);
    assert_eq!(map.get_value(10), Some(1));
    assert_eq!(map.get_value(17), Some(1));
    assert_eq!(map.get_value(18), Some(2));
    assert_eq!(map.get_value(19), Some(2));
    assert_eq!(map.get_value(27), Some(2));
    assert_eq!(map.get_value(28), None);
}

#[test]
fn fast_range_map_empty_range_changes_nothing() {
    let mut map = RangeMap::new();
    map.insert(3..9, 7);
    map.insert(5..5, 1);
    assert_eq!(map.len(), 1);
    assert_eq!(map.into_vec(), vec![((3..9), 7)]);
}

#[test]
fn fast_range_map_covering_several_entries() {
    let mut map = RangeMap::new();
    map.insert(0..2, 1);
    map.insert(4..6, 2);
    map.insert(8..10, 3);
    map.insert(12..14, 4);
    map.insert(1..13, 9);
    assert_eq!(map.values(), vec![1, 9, 4]);
    assert_eq!(map.into_vec(), vec![((0..1), 1), ((1..13), 9), ((13..14), 4)]);
}

#[test]
fn fast_range_map_from_vec_later_wins() {
    let map = RangeMap::from_vec(vec![((0..10), 1), ((5..15), 2), ((20..25), 3)]);
    assert!(!map.is_empty());
    assert_eq!(map.get_value(4), Some(1));
    assert_eq!(map.get_value(5), Some(2));
    assert_eq!(map.get_value(15), None);
    assert_eq!(map.get_value(24), Some(3));
    assert_eq!(map.into_vec(), vec![((0..5), 1), ((5..15), 2), ((20..25), 3)]);
}

#[test]
fn fast_range_map_insert_front_and_back() {
    let mut map = RangeMap::new();
    map.insert(10..20, 1);
    map.insert(30..40, 2);
    map.insert(0..5, 3);
    map.insert(22..25, 4);
    assert_eq!(
        map.into_vec(),
        vec![((0..5), 3), ((10..20), 1), ((22..25), 4), ((30..40), 2)]
    );
}
