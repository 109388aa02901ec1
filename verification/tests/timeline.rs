use bytehound::timeline::{build_timeline, build_map_timeline, AllocationDelta, TimelinePoint, UsageDelta};
use bytehound::Timestamp;

fn point(timestamp: u64, value: i64, positive_change: i64, negative_change: i64) -> TimelinePoint<i64> {
    TimelinePoint { timestamp, value, positive_change, negative_change }
}

#[test]
fn test_build_timeline_oversampled() {
    let output = build_timeline::<i64>(
        Timestamp::from_usecs(0),
        Timestamp::from_usecs(16),
        100,
        &vec![
            (Timestamp::from_usecs(4), 100),
            (Timestamp::from_usecs(8), -25),
            (Timestamp::from_usecs(12), 200),
        ],
    );

    assert_eq!(
        output,
        vec![
            TimelinePoint { timestamp: 4, value: 100, positive_change: 100, negative_change: 0 },
            TimelinePoint { timestamp: 5, value: 100, positive_change: 0, negative_change: 0 },
            TimelinePoint { timestamp: 6, value: 100, positive_change: 0, negative_change: 0 },
            TimelinePoint { timestamp: 7, value: 100, positive_change: 0, negative_change: 0 },
            TimelinePoint { timestamp: 8, value: 75, positive_change: 0, negative_change: 25 },
            TimelinePoint { timestamp: 9, value: 75, positive_change: 0, negative_change: 0 },
            TimelinePoint { timestamp: 10, value: 75, positive_change: 0, negative_change: 0 },
            TimelinePoint { timestamp: 11, value: 75, positive_change: 0, negative_change: 0 },
            TimelinePoint { timestamp: 12, value: 275, positive_change: 200, negative_change: 0 },
            TimelinePoint { timestamp: 13, value: 275, positive_change: 0, negative_change: 0 },
        ]
    );
}

#[test]
fn test_build_timeline_undersampled() {
    let output = build_timeline::<i64>(
        Timestamp::from_usecs(4),
        Timestamp::from_usecs(28),
        3,
        &vec![
            (Timestamp::from_usecs(4), 4),   // 4
            (Timestamp::from_usecs(5), 1),   // 5
            (Timestamp::from_usecs(6), 1),   // 6
            (Timestamp::from_usecs(7), 1),   // 7
            (Timestamp::from_usecs(8), 1),   // 8
            (Timestamp::from_usecs(9), 1),   // 9
            (Timestamp::from_usecs(10), 1),  // 10
            (Timestamp::from_usecs(11), 1),  // 11
            (Timestamp::from_usecs(12), 1),  // 12
            (Timestamp::from_usecs(13), -1), // 11
            (Timestamp::from_usecs(14), -1), // 10
            (Timestamp::from_usecs(15), -1), // 9
            (Timestamp::from_usecs(16), -1), // 8
            (Timestamp::from_usecs(17), -1), // 7
            (Timestamp::from_usecs(18), -1), // 6
            (Timestamp::from_usecs(19), -1), // 5
            (Timestamp::from_usecs(20), -1), // 4
            (Timestamp::from_usecs(21), 10), // 14
            (Timestamp::from_usecs(22), 10), // 24
            (Timestamp::from_usecs(23), 10), // 34
            (Timestamp::from_usecs(24), 10), // 44
            (Timestamp::from_usecs(25), 10), // 54
            (Timestamp::from_usecs(26), 10), // 64
            (Timestamp::from_usecs(27), 10), // 74
            (Timestamp::from_usecs(28), 10), // 84
        ],
    );

    assert_eq!(
        output,
        vec![
            TimelinePoint { timestamp: 8, value: 12, positive_change: 12, negative_change: 3 },
            TimelinePoint { timestamp: 16, value: 34, positive_change: 30, negative_change: 5 },
            TimelinePoint { timestamp: 24, value: 84, positive_change: 50, negative_change: 0 },
            TimelinePoint { timestamp: 25, value: 84, positive_change: 0, negative_change: 0 },
        ]
    );
}

#[test]
fn timeline_of_nothing_is_flat() {
    let output = build_timeline::<i64>(Timestamp::from_usecs(0), Timestamp::from_usecs(10), 10, &vec![]);
    assert_eq!(output, vec![point(0, 0, 0, 0), point(0, 0, 0, 0), point(1, 0, 0, 0)]);
}

#[test]
fn timeline_never_goes_below_zero() {
    let output = build_timeline::<i64>(
        Timestamp::from_usecs(0),
        Timestamp::from_usecs(10),
        10,
        &vec![(Timestamp::from_usecs(3), -5), (Timestamp::from_usecs(5), 2)],
    );
    assert_eq!(
        output,
        vec![point(3, 0, 0, 5), point(4, 0, 0, 0), point(5, 0, 2, 0), point(6, 0, 0, 0)]
    );
}

#[test]
fn allocation_timeline_counts_both_components() {
    let delta = |memory_usage, allocations| AllocationDelta { memory_usage, allocations };
    let output = build_timeline::<AllocationDelta>(
        Timestamp::from_usecs(0),
        Timestamp::from_usecs(4),
        4,
        &vec![(Timestamp::from_usecs(1), delta(64, 1)), (Timestamp::from_usecs(2), delta(-64, -1))],
    );
    assert_eq!(output.len(), 3);
    assert_eq!(output[0].value, delta(64, 1));
    assert_eq!(output[1].timestamp, 2);
    assert_eq!(output[1].negative_change, delta(64, 1));
    assert_eq!(output[2].value, delta(0, 0));
}

#[test]
fn map_timeline_uses_a_thousand_points() {
    let usage = UsageDelta { address_space: 4096, anonymous: 4096, ..UsageDelta::default() };
    let output = build_map_timeline(
        Timestamp::from_usecs(0),
        Timestamp::from_usecs(10_000),
        &vec![(Timestamp::from_usecs(5_000), usage)],
    );
    assert_eq!(output.len(), 3);
    assert_eq!(output[1].timestamp, 5_000);
    assert_eq!(output[1].value.address_space, 4096);
    assert_eq!(output[2].timestamp, 5_001);
}

#[test]
fn timeline_ends_with_the_total_of_its_changes() {
    let ops = vec![
        (Timestamp::from_usecs(3), 5i64),
        (Timestamp::from_usecs(40), 7),
        (Timestamp::from_usecs(41), -2),
        (Timestamp::from_usecs(90), 4),
    ];
    let output = build_timeline::<i64>(Timestamp::from_usecs(0), Timestamp::from_usecs(100), 10, &ops);
    assert!(output.len() >= 3);
    assert_eq!(output.last().unwrap().value, 14);
    let falling = vec![(Timestamp::from_usecs(10), 3i64), (Timestamp::from_usecs(20), -8)];
    let output = build_timeline::<i64>(Timestamp::from_usecs(0), Timestamp::from_usecs(100), 10, &falling);
    assert_eq!(output.last().unwrap().value, 0);
}
