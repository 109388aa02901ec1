use bytehound::Timestamp;

#[test]
fn test_timestamp() {
    let ts = Timestamp::from_timespec(333, 987_654_321);
    assert_eq!(ts.as_secs(), 333);
    assert_eq!(ts.as_msecs(), 333987);
    assert_eq!(ts.as_usecs(), 333987654);
    assert_eq!(ts.fract_nsecs(), 987_654_000);

    assert_eq!(ts.sub(Timestamp::from_secs(133)), Timestamp::from_timespec(200, 987_654_321));

    assert_eq!(ts.sub(Timestamp::from_usecs(654)), Timestamp::from_timespec(333, 987_000_321));

    assert_eq!(
        Timestamp::from_secs(1).sub(Timestamp::from_usecs(500)),
        Timestamp::from_timespec(0, 999_500_000)
    );

    // Scaling by a float is not part of the library; it is done here on the
    // microsecond count, as the profiler does it.
    let doubled = Timestamp::from_timespec(1, 200_300_400);
    assert_eq!(
        Timestamp::from_usecs((doubled.as_usecs() as f64 * 2.0) as u64),
        Timestamp::from_timespec(2, 400_600_000)
    );

    let halved = Timestamp::from_timespec(2, 200_400_400);
    assert_eq!(
        Timestamp::from_usecs((halved.as_usecs() as f64 / 2.0) as u64),
        Timestamp::from_timespec(1, 100_200_000)
    );
}

#[test]
fn timestamp_limits_and_sums() {
    assert_eq!(Timestamp::min().as_usecs(), 0);
    assert_eq!(Timestamp::max().as_usecs(), u64::MAX);
    assert_eq!(Timestamp::eps().as_usecs(), 1);
    assert_eq!(Timestamp::from_msecs(3).add(Timestamp::from_usecs(7)).as_usecs(), 3007);
    assert_eq!(Timestamp::from_secs(2).as_msecs(), 2000);
}
