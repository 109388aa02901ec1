use bytehound::event::{AllocBody, DataId, Event, HeaderBody};
use bytehound::exporter_replay::{can_replay, export_as_replay};
use bytehound::loaded::Data;
use bytehound::loader::Loader;
use bytehound::Timestamp;

fn header() -> HeaderBody {
    HeaderBody {
        id: DataId::new(5, 6),
        initial_timestamp: Timestamp::from_usecs(0),
        timestamp: Timestamp::from_usecs(0),
        wall_clock_secs: 0,
        wall_clock_nsecs: 0,
        pid: 1,
        cmdline: b"./replayed".to_vec(),
        executable: b"/tmp/replayed".to_vec(),
        arch: "x86_64".to_string(),
        flags: 0,
        pointer_size: 8,
    }
}

fn body(pointer: u64, size: u64, backtrace: u64) -> AllocBody {
    AllocBody { pointer, size, backtrace, thread: 1, flags: 0, extra_usable_space: 0, preceding_free_space: 0 }
}

fn at(usecs: u64) -> Timestamp {
    Timestamp::from_usecs(usecs)
}

fn data() -> Data {
    let events = vec![
        Event::Backtrace { id: 1, addresses: vec![0x1, 0x2, 0x3] },
        Event::Backtrace { id: 2, addresses: vec![0x4, 0x5] },
        Event::Alloc { timestamp: at(10), allocation: body(0x1000, 10, 1) },
        Event::Alloc { timestamp: at(20), allocation: body(0x2000, 100, 1) },
        Event::Free { timestamp: at(30), pointer: 0x2000, backtrace: 1, thread: 1 },
        Event::Alloc { timestamp: at(40), allocation: body(0x3000, 1000, 2) },
        Event::Realloc { timestamp: at(50), old_pointer: 0x3000, allocation: body(0x4000, 2000, 2) },
        Event::Free { timestamp: at(60), pointer: 0x4000, backtrace: 2, thread: 1 },
    ];
    let mut loader = Loader::new(header());
    for event in events {
        assert!(loader.can_process(&event));
        loader.process(event);
    }
    assert!(loader.can_finalize());
    loader.finalize()
}

fn export(data: &Data, selected: Vec<bool>) -> Vec<u64> {
    assert!(can_replay(data, &selected));
    export_as_replay(data, &selected).unwrap()
}

#[test]
fn replay_of_every_allocation() {
    let data = data();
    let first = data.allocations[0].backtrace;
    let second = data.allocations[2].backtrace;
    assert_eq!(data.get_frame_ids(first), &[0, 1, 2]);
    assert_eq!(data.get_frame_ids(second), &[3, 4]);

    let words = export(&data, vec![true; 4]);
    let expected: Vec<u64> = vec![
        2,
        // Into the first backtrace, outermost frame first; every frame is
        // used three times, so the larger identifiers come first.
        4, 2, 0, 0, 4, 3, 0, 0, 4, 4, 0, 0,
        1, 0, 10, 10,
        1, 1, 20, 100,
        2, 1, 20, 0,
        // Out of the first backtrace and into the second.
        5, 0, 0, 0, 5, 0, 0, 0, 5, 0, 0, 0,
        4, 0, 0, 0, 4, 1, 0, 0,
        1, 1, 40, 1000,
        3, 1, 50, 2000,
        2, 1, 50, 0,
        0,
    ];
    assert_eq!(words, expected);
}

#[test]
fn replay_of_one_allocation() {
    let data = data();
    let words = export(&data, vec![true, false, false, false]);
    assert_eq!(words, vec![1, 4, 0, 0, 0, 4, 1, 0, 0, 4, 2, 0, 0, 1, 0, 10, 10, 0]);
}

#[test]
fn replay_pairs_slots_with_operations_by_position() {
    let data = data();
    // Only the reallocated allocation is taken: the first pass hands out
    // two slots, which the second pass pairs with the first two
    // operations, neither of which is taken.
    let words = export(&data, vec![false, false, false, true]);
    assert_eq!(words, vec![1, 0]);
}

#[test]
fn replay_refuses_a_selection_of_the_wrong_length() {
    let data = data();
    assert!(!can_replay(&data, &vec![true; 3]));
    assert_eq!(export(&data, vec![false; 4]), vec![0, 0]);
}

#[test]
fn operations_happen_when_made_or_freed() {
    let data = data();
    let times: Vec<Timestamp> = data.operations.iter().map(|op| data.get_timestamp(*op)).collect();
    assert_eq!(times, vec![at(10), at(20), at(30), at(40), at(50), at(60)]);
}

#[test]
fn chains_live_from_their_first_allocation_to_the_last_free() {
    let data = data();
    let chain = data.get_chain_by_any_allocation(bytehound::AllocationId::new(3));
    assert_eq!(chain.length, 2);
    assert_eq!(chain.lifetime(&data), Some(Timestamp::from_usecs(20)));
    let alone = data.get_chain_by_any_allocation(bytehound::AllocationId::new(0));
    assert_eq!(alone.lifetime(&data), None);
}

#[test]
fn inlined_frames_at_one_address_are_skipped() {
    let events = vec![
        Event::Backtrace { id: 1, addresses: vec![0x10, 0x10, 0x20] },
        Event::Alloc { timestamp: at(1), allocation: body(0x1000, 8, 1) },
    ];
    let mut loader = Loader::new(header());
    for event in events {
        assert!(loader.can_process(&event));
        loader.process(event);
    }
    assert!(loader.can_finalize());
    let data = loader.finalize();
    let backtrace = data.allocations[0].backtrace;
    let ids = data.get_frame_ids(backtrace).to_vec();
    assert_eq!(ids.len(), 3);
    let outermost_first: Vec<usize> = ids.iter().rev().copied().collect();
    let kept = data.get_non_inline_backtrace(backtrace);
    if data.frames[ids[0]].address == data.frames[ids[1]].address {
        assert_eq!(kept, vec![outermost_first[0], outermost_first[1]]);
    } else {
        assert_eq!(kept, outermost_first);
    }
    // Each return address is recorded at the call instruction just before it.
    assert_eq!(data.frames[kept[0]].address.0, 0x1f);
}
