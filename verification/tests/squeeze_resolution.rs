use bytehound::event::{AllocBody, Event};
use bytehound::squeeze_resolution::{
    get_timestamp, timestamp_bounds, widen_range, ResolutionReplay, ResolutionSqueezer,
};
use bytehound::Timestamp;

fn at(usecs: u64) -> Timestamp {
    Timestamp::from_usecs(usecs)
}

#[test]
fn events_carry_times() {
    let wall = Event::WallClock { timestamp: at(5), sec: 1, nsec: 2 };
    assert_eq!(get_timestamp(&wall), Some(at(5)));
    assert_eq!(get_timestamp(&Event::Marker { value: 1 }), None);
    assert_eq!(get_timestamp(&Event::Backtrace { id: 1, addresses: vec![] }), None);
}

#[test]
fn range_of_times_covers_every_event() {
    let events = vec![
        Event::Free { timestamp: at(50), pointer: 1, backtrace: 1, thread: 1 },
        Event::Marker { value: 1 },
        Event::GroupStatistics {
            backtrace: 1,
            first_allocation: at(20),
            last_allocation: at(70),
            free_count: 1,
            free_size: 1,
            min_size: 1,
            max_size: 1,
        },
        Event::WallClock { timestamp: at(30), sec: 0, nsec: 0 },
    ];
    let mut range = (None, None);
    for event in &events {
        range = widen_range(range, event);
    }
    assert_eq!(range, (Some(at(20)), Some(at(70))));
    assert_eq!(timestamp_bounds(range), (at(20), at(70)));
    assert_eq!(timestamp_bounds((None, None)), (at(0), at(u64::MAX)));
}

fn body_at(pointer: u64, size: u64, backtrace: u64) -> AllocBody {
    AllocBody { pointer, size, backtrace, thread: 1, flags: 0, extra_usable_space: 0, preceding_free_space: 0 }
}

fn lowered_stream() -> Vec<Event> {
    vec![
        Event::Backtrace { id: 1, addresses: vec![1, 2] },
        Event::Alloc { timestamp: Timestamp::from_usecs(1), allocation: body_at(0x100, 10, 1) },
        Event::Alloc { timestamp: Timestamp::from_usecs(5), allocation: body_at(0x200, 20, 1) },
        Event::Free { timestamp: Timestamp::from_usecs(12), pointer: 0x100, backtrace: 1, thread: 1 },
        Event::WallClock { timestamp: Timestamp::from_usecs(15), sec: 0, nsec: 0 },
        Event::Free { timestamp: Timestamp::from_usecs(25), pointer: 0x200, backtrace: 1, thread: 1 },
        Event::WallClock { timestamp: Timestamp::from_usecs(26), sec: 0, nsec: 0 },
    ]
}

#[test]
fn the_first_pass_gathers_each_backtraces_bytes_per_bucket() {
    let mut first = ResolutionSqueezer::new(Timestamp::from_usecs(0), Timestamp::from_usecs(10));
    let mut written = Vec::new();
    for event in lowered_stream() {
        written.extend(first.process(event).unwrap());
    }
    assert_eq!(written.len(), 5);
    assert_eq!(written[1], Event::Alloc { timestamp: Timestamp::from_usecs(1), allocation: body_at(0x100, 10, 1) });
    let summary = first.finish().unwrap();
    assert_eq!(summary.buckets, vec![vec![], vec![(1, 30, 30)], vec![(1, 20, 30)]]);
    assert!(summary.live.is_empty());
    let stats = summary.stats.get(&1).copied().unwrap();
    assert_eq!((stats.free_count, stats.free_size, stats.min_size), (2, 30, 10));
}

#[test]
fn the_second_pass_writes_one_allocation_per_backtrace_and_bucket() {
    let mut first = ResolutionSqueezer::new(Timestamp::from_usecs(0), Timestamp::from_usecs(10));
    let mut written = Vec::new();
    for event in lowered_stream() {
        written.extend(first.process(event).unwrap());
    }
    let mut second = ResolutionReplay::new(first.finish().unwrap(), Timestamp::from_usecs(0), Timestamp::from_usecs(10));
    let mut out = Vec::new();
    for event in written {
        out.extend(second.process(event).unwrap());
    }
    out.extend(second.finish(Timestamp::from_usecs(26)).unwrap());
    let bucket = Event::Alloc {
        timestamp: Timestamp::from_usecs(26),
        allocation: AllocBody { pointer: 1, size: 30, backtrace: 1, thread: 1234, flags: 0, extra_usable_space: 0, preceding_free_space: 0 },
    };
    assert_eq!(
        out,
        vec![
            Event::Backtrace { id: 1, addresses: vec![1, 2] },
            Event::GroupStatistics {
                backtrace: 1,
                first_allocation: Timestamp::from_usecs(1),
                last_allocation: Timestamp::from_usecs(5),
                free_count: 2,
                free_size: 30,
                min_size: 10,
                max_size: 10,
            },
            Event::WallClock { timestamp: Timestamp::from_usecs(15), sec: 0, nsec: 0 },
            bucket,
            Event::WallClock { timestamp: Timestamp::from_usecs(26), sec: 0, nsec: 0 },
            Event::Free { timestamp: Timestamp::from_usecs(26), pointer: 1, backtrace: 1, thread: 1234 },
        ]
    );
}

#[test]
fn the_first_pass_fails_where_more_bytes_go_than_were_mapped() {
    let mut first = ResolutionSqueezer::new(Timestamp::from_usecs(0), Timestamp::from_usecs(10));
    let unmap = Event::MemoryUnmap { timestamp: Timestamp::from_usecs(3), pointer: 0x1000, length: 4096, backtrace: 7, thread: 1 };
    assert!(first.process(unmap).is_none());
    let mut second = ResolutionReplay::new(
        ResolutionSqueezer::new(Timestamp::from_usecs(0), Timestamp::from_usecs(10)).finish().unwrap(),
        Timestamp::from_usecs(0),
        Timestamp::from_usecs(10),
    );
    assert!(second.process(Event::Free { timestamp: Timestamp::from_usecs(1), pointer: 1, backtrace: 1, thread: 1 }).is_none());
}
