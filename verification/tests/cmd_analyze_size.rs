use bytehound::cmd_analyze_size::{
    event_kind, format_count, new_tally, report_order, tally, Stats, S_ALLOC, S_BACKTRACE, S_FILE, S_FREE, S_OTHER,
};
use bytehound::event::{AllocBody, Event};
use bytehound::Timestamp;

#[test]
fn counts_are_shortened() {
    assert_eq!(format_count(0), "0");
    assert_eq!(format_count(999), "999");
    assert_eq!(format_count(1000), "1K");
    assert_eq!(format_count(123_456), "123K");
    assert_eq!(format_count(999_999), "999K");
    assert_eq!(format_count(1_000_000), "1M");
    assert_eq!(format_count(42_000_000_000), "42000M");
}

#[test]
fn events_are_tallied_by_kind() {
    let alloc = Event::Alloc {
        timestamp: Timestamp::from_usecs(1),
        allocation: AllocBody {
            pointer: 1,
            size: 2,
            backtrace: 3,
            thread: 4,
            flags: 0,
            extra_usable_space: 0,
            preceding_free_space: 0,
        },
    };
    let free = Event::Free { timestamp: Timestamp::from_usecs(2), pointer: 1, backtrace: 3, thread: 4 };
    let backtrace = Event::Backtrace { id: 3, addresses: vec![1, 2] };
    let marker = Event::Marker { value: 7 };
    let file = Event::File { timestamp: Timestamp::from_usecs(0), path: "/a".to_string(), contents: vec![1, 2, 3] };
    assert_eq!(event_kind(&alloc), S_ALLOC);
    assert_eq!(event_kind(&free), S_FREE);
    assert_eq!(event_kind(&backtrace), S_BACKTRACE);
    assert_eq!(event_kind(&marker), S_OTHER);
    assert_eq!(event_kind(&file), S_FILE);

    let mut stats = new_tally();
    tally(&mut stats, &alloc, 40);
    tally(&mut stats, &alloc, 40);
    tally(&mut stats, &free, 30);
    tally(&mut stats, &backtrace, 100);
    tally(&mut stats, &marker, 8);
    assert_eq!(stats[S_ALLOC], Stats { size: 80, count: 2 });
    assert_eq!(stats[S_FREE], Stats { size: 30, count: 1 });
    assert_eq!(stats[S_BACKTRACE], Stats { size: 100, count: 1 });
    assert_eq!(stats[S_OTHER], Stats { size: 8, count: 1 });
    // The largest first; the empty kinds (realloc, files) keep their order.
    assert_eq!(report_order(&stats), vec![S_BACKTRACE, S_ALLOC, S_FREE, S_OTHER, 2, S_FILE]);
}
