use bytehound::script::{expand_datapoints, expand_datapoints_from, finalize_datapoints, gen_keypoints, DecomposedDuration};
use bytehound::filter::Duration;

#[test]
fn test_expand_datapoints() {
    assert_eq!(expand_datapoints(&[0, 1, 2], &[(1, 100)]), &[(0, 0), (1, 100), (2, 100)]);

    assert_eq!(
        expand_datapoints(&[0, 1, 2, 3], &[(0, 100), (2, 200)]),
        &[(0, 100), (1, 100), (2, 200), (3, 200)]
    );
}

#[test]
fn expanding_nothing_gives_the_default() {
    assert_eq!(expand_datapoints::<u64>(&[5, 6], &[]), &[(5, 0), (6, 0)]);
    assert!(expand_datapoints::<u64>(&[], &[]).is_empty());
    assert_eq!(expand_datapoints_from(&[1, 2, 3], &[(2, 'b')], 'a'), &[(1, 'a'), (2, 'b'), (3, 'b')]);
}

#[test]
fn series_are_spread_and_stacked() {
    let (xs, series) = finalize_datapoints(
        vec![30, 10, 20],
        vec![vec![(10, 1), (30, 3)], vec![], vec![(20, 5)]],
    );
    assert_eq!(xs, vec![10, 20, 30]);
    assert_eq!(
        series,
        vec![
            vec![(10, 1), (20, 1), (30, 3)],
            vec![],
            vec![(10, 1), (20, 6), (30, 8)],
        ]
    );
}

#[test]
fn axis_points_fall_on_round_steps() {

    let hundreds: Vec<u64> = (0..=10).map(|i| i * 100).collect();
    assert_eq!(gen_keypoints((0, 1000), 10), hundreds);
    assert_eq!(gen_keypoints((5, 17), 5), vec![5, 10, 15]);
    assert_eq!(gen_keypoints((17, 5), 5), vec![5, 10, 15]);
    assert_eq!(gen_keypoints((7, 7), 0), vec![7]);
    assert_eq!(gen_keypoints((3, 4), 100), vec![3, 4]);
}

#[test]
fn durations_are_split_into_units() {
    // 1 day, 2 hours, 3 minutes, 4 seconds, 5 milliseconds and 6 microseconds.
    let total = 86_400_000_000 + 2 * 3_600_000_000 + 3 * 60_000_000 + 4 * 1_000_000 + 5 * 1000 + 6;
    let parts = Duration::from_usecs(total).decompose();
    assert_eq!(
        parts,
        DecomposedDuration { days: 1, hours: 2, minutes: 3, secs: 4, ms: 5, us: 6 }
    );
    assert_eq!(parts.to_text(), "1d 2h 3m 4s 5ms 6us");
}

#[test]
fn decomposed_durations_leave_out_empty_units() {
    assert_eq!(Duration::from_secs(90).decompose().to_text(), "1m 30s");
    assert_eq!(Duration::from_msecs(250).decompose().to_text(), "250ms");
    assert_eq!(Duration::from_usecs(0).decompose().to_text(), "");
    let parts = Duration::from_secs(7200).decompose();
    assert_eq!((parts.days, parts.hours, parts.minutes), (0, 2, 0));
    assert_eq!(parts.to_text(), "2h");
}
