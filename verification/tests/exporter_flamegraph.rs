use bytehound::event::{AllocBody, DataId, Event, HeaderBody};
use bytehound::exporter_flamegraph::{collate, collation_lines};
use bytehound::loaded::Data;
use bytehound::loader::Loader;
use bytehound::Timestamp;

fn header() -> HeaderBody {
    HeaderBody {
        id: DataId::new(5, 6),
        initial_timestamp: Timestamp::from_usecs(0),
        timestamp: Timestamp::from_usecs(0),
        wall_clock_secs: 0,
        wall_clock_nsecs: 0,
        pid: 1,
        cmdline: b"./flame".to_vec(),
        executable: b"/tmp/flame".to_vec(),
        arch: "x86_64".to_string(),
        flags: 0,
        pointer_size: 8,
    }
}

fn unknown() -> u32 {
    0xFFFF_FFFF
}

fn allocation_at(usecs: u64, pointer: u64, size: u64, backtrace: u64) -> Event {
    Event::Alloc {
        timestamp: Timestamp::from_usecs(usecs),
        allocation: AllocBody { pointer, size, backtrace, thread: 1, flags: 0, extra_usable_space: 0, preceding_free_space: 0 },
    }
}

fn frame(address: u64, library: u32, raw_function: u32, function: u32) -> Event {
    Event::DecodedFrame {
        address,
        library,
        raw_function,
        function,
        source: unknown(),
        line: unknown(),
        column: unknown(),
        is_inline: false,
    }
}

fn symbolized() -> Data {
    let events = vec![
        Event::String { id: 1, string: "main".to_string() },
        Event::String { id: 2, string: "parse_config".to_string() },
        Event::String { id: 3, string: "_ZN6render".to_string() },
        Event::String { id: 4, string: "libc.so".to_string() },
        frame(0x10, unknown(), unknown(), 1),
        frame(0x20, unknown(), unknown(), 2),
        frame(0x30, unknown(), 3, unknown()),
        frame(0xABC, 4, unknown(), unknown()),
        Event::DecodedBacktrace { frames: vec![1, 0] },
        Event::DecodedBacktrace { frames: vec![2, 0] },
        Event::DecodedBacktrace { frames: vec![0] },
        Event::DecodedBacktrace { frames: vec![3] },
        allocation_at(10, 0x1000, 10, 0),
        allocation_at(20, 0x2000, 20, 1),
        allocation_at(30, 0x3000, 30, 2),
        allocation_at(40, 0x4000, 40, 3),
        allocation_at(50, 0x5000, 5, 0),
    ];
    let mut loader = Loader::new(header());
    for event in events {
        assert!(loader.can_process(&event));
        loader.process(event);
    }
    assert!(loader.can_finalize());
    loader.finalize()
}

#[test]
fn collation_names_each_stack_with_the_bytes_allocated_at_it() {
    let data = symbolized();
    let lines = collation_lines(&data, &vec![true; 5]);
    assert_eq!(
        lines,
        vec![
            "main [???] 30".to_string(),
            "main [???];parse_config [???] 15".to_string(),
            "main [???];_ZN6render [???] 20".to_string(),
            "0x0000000000000ABC [libc.so] 40".to_string(),
        ]
    );
}

#[test]
fn collation_leaves_out_what_is_not_selected() {
    let data = symbolized();
    let lines = collation_lines(&data, &vec![false, true, false, false, true]);
    assert_eq!(
        lines,
        vec!["main [???];_ZN6render [???] 20".to_string(), "main [???];parse_config [???] 5".to_string()]
    );
    assert!(collation_lines(&data, &vec![false; 5]).is_empty());
}

#[test]
fn collation_of_a_tree_of_frames_follows_the_tree() {
    let data = symbolized();
    let tree = data.frame_tree(&vec![true, false, false, false, false]);
    assert_eq!(tree.nodes.len(), 3);
    assert_eq!(tree.nodes[2].self_size, 10);
    assert_eq!(collate(&data, &tree), vec!["main [???];parse_config [???] 10".to_string()]);
}
