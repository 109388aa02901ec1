use bytehound::event::{AllocBody, DataId, Event, HeaderBody};
use bytehound::postprocessor::Postprocessor;
use bytehound::loader::Loader;
use bytehound::{CodePointer, StringId, Timestamp};

fn header() -> HeaderBody {
    HeaderBody {
        id: DataId::new(3, 4),
        initial_timestamp: Timestamp::from_usecs(0),
        timestamp: Timestamp::from_usecs(0),
        wall_clock_secs: 0,
        wall_clock_nsecs: 0,
        pid: 1,
        cmdline: b"./post".to_vec(),
        executable: b"/tmp/post".to_vec(),
        arch: "x86_64".to_string(),
        flags: 0,
        pointer_size: 8,
    }
}

fn frame(address: u64) -> Event {
    Event::DecodedFrame {
        address,
        library: 0xFFFF_FFFF,
        raw_function: 0xFFFF_FFFF,
        function: 0xFFFF_FFFF,
        source: 0xFFFF_FFFF,
        line: 0xFFFF_FFFF,
        column: 0xFFFF_FFFF,
        is_inline: false,
    }
}

fn allocation_event(backtrace: u64) -> Event {
    Event::Alloc {
        timestamp: Timestamp::from_usecs(5),
        allocation: AllocBody { pointer: 0x1000, size: 8, backtrace, thread: 1, flags: 0, extra_usable_space: 0, preceding_free_space: 0 },
    }
}

fn run(post: &mut Postprocessor, event: Event) -> Vec<Event> {
    assert!(post.can_process(&event));
    post.process(event)
}

#[test]
fn backtraces_are_replaced_by_their_decoded_frames() {
    let mut post = Postprocessor::new(header());
    assert_eq!(
        run(&mut post, Event::Backtrace { id: 7, addresses: vec![0x11, 0x21] }),
        vec![frame(0x10), frame(0x20), Event::DecodedBacktrace { frames: vec![0, 1] }]
    );
    // The same addresses again add nothing.
    assert_eq!(run(&mut post, Event::Backtrace { id: 8, addresses: vec![0x11, 0x21] }), vec![]);
    // Only the frame not seen before is described.
    assert_eq!(
        run(&mut post, Event::Backtrace { id: 9, addresses: vec![0x31, 0x21] }),
        vec![frame(0x30), Event::DecodedBacktrace { frames: vec![2, 1] }]
    );
}

#[test]
fn events_refer_to_the_decoded_backtraces() {
    let mut post = Postprocessor::new(header());
    run(&mut post, Event::Backtrace { id: 7, addresses: vec![0x11] });
    run(&mut post, Event::Backtrace { id: 8, addresses: vec![0x11] });
    run(&mut post, Event::Backtrace { id: 9, addresses: vec![0x41] });
    assert_eq!(run(&mut post, allocation_event(8)), vec![allocation_event(0)]);
    assert_eq!(run(&mut post, allocation_event(9)), vec![allocation_event(1)]);
    assert_eq!(run(&mut post, allocation_event(12345)), vec![allocation_event(u64::MAX)]);
    assert_eq!(
        run(&mut post, Event::Free { timestamp: Timestamp::from_usecs(6), pointer: 0x1000, backtrace: 7, thread: 1 }),
        vec![Event::Free { timestamp: Timestamp::from_usecs(6), pointer: 0x1000, backtrace: 0, thread: 1 }]
    );
}

#[test]
fn executables_are_dropped_and_other_files_kept() {
    let mut post = Postprocessor::new(header());
    let elf = Event::File { timestamp: Timestamp::from_usecs(1), path: "/bin/x".to_string(), contents: b"\x7FELF\x02".to_vec() };
    assert_eq!(run(&mut post, elf), vec![]);
    let maps = Event::File { timestamp: Timestamp::from_usecs(1), path: "/proc/self/maps".to_string(), contents: b"00400000".to_vec() };
    assert_eq!(run(&mut post, maps.clone()), vec![maps]);
    assert_eq!(run(&mut post, Event::Marker { value: 3 }), vec![Event::Marker { value: 3 }]);
}

#[test]
fn a_postprocessed_recording_loads_with_its_decoded_backtraces() {
    let raw = vec![
        Event::Backtrace { id: 7, addresses: vec![0x11, 0x21] },
        allocation_event(7),
        Event::Free { timestamp: Timestamp::from_usecs(6), pointer: 0x1000, backtrace: 7, thread: 1 },
    ];
    let mut post = Postprocessor::new(header());
    let mut decoded = Vec::new();
    for event in raw {
        decoded.extend(run(&mut post, event));
    }
    let mut loader = Loader::new(header());
    for event in decoded {
        assert!(loader.can_process(&event));
        loader.process(event);
    }
    assert!(loader.can_finalize());
    let data = loader.finalize();
    assert_eq!(data.allocations.len(), 1);
    let backtrace = data.allocations[0].backtrace;
    assert_eq!(data.get_frame_ids(backtrace), &[0, 1]);
    assert_eq!(data.frames[0].address, CodePointer(0x10));
    assert!(data.allocations[0].deallocation.is_some());
}

#[test]
fn strings_and_decoded_frames_are_loaded() {
    let events = vec![
        Event::String { id: 1, string: "main".to_string() },
        Event::String { id: 2, string: "libfoo.so".to_string() },
        Event::String { id: 3, string: "main".to_string() },
        Event::DecodedFrame {
            address: 0x10,
            library: 2,
            raw_function: 3,
            function: 0xFFFF_FFFF,
            source: 0xFFFF_FFFF,
            line: 5,
            column: 0xFFFF_FFFF,
            is_inline: true,
        },
        Event::DecodedBacktrace { frames: vec![0, 0] },
        allocation_event(0),
    ];
    let mut loader = Loader::new(header());
    assert!(!loader.can_process(&Event::DecodedBacktrace { frames: vec![0] }));
    for event in events {
        assert!(loader.can_process(&event));
        loader.process(event);
    }
    assert!(!loader.can_process(&Event::DecodedFrame {
        address: 0,
        library: 9,
        raw_function: 0xFFFF_FFFF,
        function: 0xFFFF_FFFF,
        source: 0xFFFF_FFFF,
        line: 0,
        column: 0,
        is_inline: false,
    }));
    assert!(loader.can_finalize());
    let data = loader.finalize();
    let frame = &data.frames[0];
    // The same string under two identifiers is held once.
    assert_eq!(frame.raw_function, Some(StringId(1)));
    assert_eq!(frame.library, Some(StringId(2)));
    assert_eq!(frame.function, None);
    assert_eq!((frame.line, frame.column, frame.is_inline), (Some(5), None, true));
    assert_eq!(data.resolve_string(StringId(1)), Some("main".to_string()));
    assert_eq!(data.resolve_string(StringId(2)), Some("libfoo.so".to_string()));
    assert_eq!(data.resolve_string(StringId(3)), None);
    assert_eq!(data.get_frame_ids(data.allocations[0].backtrace), &[0, 0]);
}
