use bytehound::event::{AllocBody, DataId, Event, HeaderBody};
use bytehound::exporter_heaptrack::{can_export_heaptrack, heaptrack_lines};
use bytehound::loaded::Data;
use bytehound::loader::Loader;
use bytehound::Timestamp;

fn header() -> HeaderBody {
    HeaderBody {
        id: DataId::new(7, 8),
        initial_timestamp: Timestamp::from_usecs(0),
        timestamp: Timestamp::from_usecs(0),
        wall_clock_secs: 0,
        wall_clock_nsecs: 0,
        pid: 1,
        cmdline: b"./heap".to_vec(),
        executable: b"/tmp/heap".to_vec(),
        arch: "x86_64".to_string(),
        flags: 0,
        pointer_size: 8,
    }
}

fn none() -> u32 {
    0xFFFF_FFFF
}

fn allocation_at(usecs: u64, pointer: u64, size: u64, backtrace: u64) -> Event {
    Event::Alloc {
        timestamp: Timestamp::from_usecs(usecs),
        allocation: AllocBody { pointer, size, backtrace, thread: 1, flags: 0, extra_usable_space: 0, preceding_free_space: 0 },
    }
}

/// Three backtraces, innermost first: `work` called from `main`; a frame
/// with no names, `work` and `main`; and a single frame.
fn recording() -> Data {
    let events = vec![
        Event::String { id: 1, string: "main".to_string() },
        Event::String { id: 2, string: "libfoo.so".to_string() },
        Event::String { id: 3, string: "src/main.rs".to_string() },
        Event::String { id: 4, string: "work".to_string() },
        Event::DecodedFrame { address: 0x10, library: 2, raw_function: none(), function: 1, source: 3, line: 7, column: none(), is_inline: false },
        Event::DecodedFrame { address: 0x20, library: none(), raw_function: 4, function: none(), source: none(), line: none(), column: none(), is_inline: false },
        Event::DecodedFrame { address: 0x30, library: none(), raw_function: none(), function: none(), source: none(), line: none(), column: none(), is_inline: false },
        Event::DecodedBacktrace { frames: vec![1, 0] },
        Event::DecodedBacktrace { frames: vec![2, 1, 0] },
        Event::DecodedBacktrace { frames: vec![0] },
        allocation_at(1000, 0x1000, 16, 0),
        allocation_at(1000, 0x2000, 16, 0),
        allocation_at(3500, 0x3000, 32, 1),
        allocation_at(5000, 0x4000, 8, 2),
        Event::Free { timestamp: Timestamp::from_usecs(6000), pointer: 0x1000, backtrace: 0, thread: 1 },
    ];
    let mut loader = Loader::new(header());
    for event in events {
        assert!(loader.can_process(&event));
        loader.process(event);
    }
    assert!(loader.can_finalize());
    loader.finalize()
}

#[test]
fn heaptrack_export_defines_each_string_pointer_node_and_kind_once() {
    let data = recording();
    let selected = vec![true; 4];
    assert!(can_export_heaptrack(&data, &selected));
    let lines = heaptrack_lines(&data, &selected, "/tmp/heap").unwrap();
    let expected = vec![
        "v 10100 2", "X /tmp/heap",
        "s libfoo.so", "s main", "s src/main.rs", "i 10 1 2 3 7", "t 1 0", "c 1", "a 10 1", "+ 0",
        "+ 0",
        "s work", "i 20 0 4", "t 2 1", "c 3", "a 20 2", "+ 1",
        "c 5", "a 8 0", "+ 2",
        "c 1", "- 0",
    ];
    assert_eq!(lines, expected.iter().map(|s| s.to_string()).collect::<Vec<_>>());
}

#[test]
fn heaptrack_export_leaves_out_what_is_not_selected() {
    let data = recording();
    let selected = vec![false, false, false, true];
    let lines = heaptrack_lines(&data, &selected, "app").unwrap();
    let expected = vec!["v 10100 2", "X app", "c 5", "a 8 0", "+ 0"];
    assert_eq!(lines, expected.iter().map(|s| s.to_string()).collect::<Vec<_>>());
    assert!(!can_export_heaptrack(&data, &vec![true; 3]));
}

#[test]
fn heaptrack_export_fails_on_a_time_before_the_start() {
    let mut late_start = header();
    late_start.initial_timestamp = Timestamp::from_usecs(10_000);
    let events = vec![
        Event::Backtrace { id: 1, addresses: vec![0x10] },
        allocation_at(500, 0x1000, 16, 1),
    ];
    let mut loader = Loader::new(late_start);
    for event in events {
        assert!(loader.can_process(&event));
        loader.process(event);
    }
    assert!(loader.can_finalize());
    let data = loader.finalize();
    let selected = vec![true];
    assert!(can_export_heaptrack(&data, &selected));
    assert_eq!(heaptrack_lines(&data, &selected, "early"), None);
}
