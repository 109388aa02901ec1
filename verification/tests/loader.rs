use bytehound::event::{AllocBody, DataId, Event, HeaderBody, ALLOC_FLAG_CALLOC, ALLOC_FLAG_PREV_IN_USE};
use bytehound::loaded::Data;
use bytehound::loader::Loader;
use bytehound::{AllocationId, BacktraceId, Timestamp};

fn header() -> HeaderBody {
    HeaderBody {
        id: DataId::new(1, 2),
        initial_timestamp: Timestamp::from_usecs(0),
        timestamp: Timestamp::from_usecs(0),
        wall_clock_secs: 0,
        wall_clock_nsecs: 0,
        pid: 1234,
        cmdline: b"./run_test".to_vec(),
        executable: b"/tmp/run_test".to_vec(),
        arch: "x86_64".to_string(),
        flags: 1,
        pointer_size: 8,
    }
}

fn load(events: Vec<Event>) -> Data {
    let mut loader = Loader::new(header());
    for event in events {
        assert!(loader.can_process(&event));
        loader.process(event);
    }
    assert!(loader.can_finalize());
    loader.finalize()
}

fn allocate(timestamp: u64, pointer: u64, size: u64, thread: u32, flags: u32) -> Event {
    Event::Alloc {
        timestamp: Timestamp::from_usecs(timestamp),
        allocation: AllocBody {
            pointer,
            size,
            backtrace: 1,
            thread,
            flags,
            extra_usable_space: 0,
            preceding_free_space: 0,
        },
    }
}

fn realloc(timestamp: u64, old_pointer: u64, pointer: u64, size: u64, thread: u32, flags: u32) -> Event {
    Event::Realloc {
        timestamp: Timestamp::from_usecs(timestamp),
        old_pointer,
        allocation: AllocBody {
            pointer,
            size,
            backtrace: 1,
            thread,
            flags,
            extra_usable_space: 0,
            preceding_free_space: 0,
        },
    }
}

fn free(timestamp: u64, pointer: u64, thread: u32) -> Event {
    Event::Free { timestamp: Timestamp::from_usecs(timestamp), pointer, backtrace: 1, thread }
}

fn chain_length(data: &Data, index: u64) -> u32 {
    data.get_chain_by_any_allocation(AllocationId::new(index)).length
}

/// The events that the profiler records of `run_test`: jemalloc serves the
/// first five allocations, from `jemalloc_base` on, and libc the last two.
fn jemalloc_run(jemalloc_base: u64, jemalloc_flags: u32) -> Vec<Event> {
    let libc_flags = ALLOC_FLAG_PREV_IN_USE;
    vec![
        Event::Backtrace { id: 1, addresses: vec![0x401000, 0x402000, 0x403000] },
        allocate(10, jemalloc_base, 10, 7, jemalloc_flags),
        allocate(11, jemalloc_base + 0x1000, 100, 7, jemalloc_flags),
        allocate(12, jemalloc_base + 0x2000, 1000, 7, jemalloc_flags),
        realloc(13, jemalloc_base + 0x2000, jemalloc_base + 0x3000, 10000, 7, jemalloc_flags),
        allocate(14, jemalloc_base + 0x6000, 100000, 7, jemalloc_flags | ALLOC_FLAG_CALLOC),
        free(15, jemalloc_base + 0x1000, 7),
        allocate(16, 0x5555_0000, 200, 7, libc_flags),
        realloc(17, 0x5555_0000, 0x5555_1000, 400, 7, libc_flags),
        free(18, 0x5555_1000, 7),
    ]
}

fn run_jemalloc_test(jemalloc_base: u64, jemalloc_flags: u32) {
    let data = load(jemalloc_run(jemalloc_base, jemalloc_flags));
    assert_eq!(data.allocations.len(), 7);

    let a0 = &data.allocations[0]; // (jemalloc) malloc, leaked
    let a1 = &data.allocations[1]; // (jemalloc) malloc, freed
    let a2 = &data.allocations[2]; // (jemalloc) malloc, freed through realloc
    let a3 = &data.allocations[3]; // (jemalloc) realloc
    let a4 = &data.allocations[4]; // (jemalloc) calloc
    let a5 = &data.allocations[5]; // (libc) malloc, freed through realloc
    let a6 = &data.allocations[6]; // (libc) realloc, freed

    assert!(a0.deallocation.is_none());
    assert!(a1.deallocation.is_some());
    assert!(a2.deallocation.is_some());
    assert!(a3.deallocation.is_none());
    assert!(a4.deallocation.is_none());
    assert!(a5.deallocation.is_some());
    assert!(a6.deallocation.is_some());

    assert!(a0.size < a1.size);
    assert!(a1.size < a2.size);
    assert!(a2.size < a3.size);
    assert!(a3.size < a4.size);
    assert_eq!(a5.size, 200);
    assert_eq!(a6.size, 400);

    assert_eq!(a0.thread, a1.thread);
    assert_eq!(a1.thread, a2.thread);
    assert_eq!(a2.thread, a3.thread);
    assert_eq!(a3.thread, a4.thread);
    assert_eq!(a4.thread, a5.thread);
    assert_eq!(a5.thread, a6.thread);

    assert_eq!(chain_length(&data, 0), 1);
    assert_eq!(chain_length(&data, 1), 1);
    assert_eq!(chain_length(&data, 2), 2);
    assert_eq!(chain_length(&data, 3), 2);
    assert_eq!(chain_length(&data, 4), 1);
    assert_eq!(chain_length(&data, 5), 2);
    assert_eq!(chain_length(&data, 6), 2);
}

#[test]
fn test_jemalloc_v03_prefixed() {
    run_jemalloc_test(0x7f00_0000_0000, 0);
}

#[test]
fn test_jemalloc_v05_prefixed() {
    run_jemalloc_test(0x7f10_0000_0000, 0);
}

#[test]
fn test_jemalloc_v05_unprefixed() {
    run_jemalloc_test(0x7f20_0000_0000, 0);
}

#[test]
fn loader_links_chains_and_positions() {
    let data = load(jemalloc_run(0x1000_0000, 0));
    let a2 = &data.allocations[2];
    let a3 = &data.allocations[3];
    assert_eq!(a2.first_allocation_in_chain, Some(AllocationId::new(2)));
    assert_eq!(a2.position_in_chain, 0);
    assert_eq!(a3.first_allocation_in_chain, Some(AllocationId::new(2)));
    assert_eq!(a3.position_in_chain, 1);
    assert_eq!(a2.reallocation, Some(AllocationId::new(3)));
    assert_eq!(a3.reallocated_from, Some(AllocationId::new(2)));
    let chain = data.get_chain_by_first_allocation(AllocationId::new(5)).unwrap();
    assert_eq!(chain.first, AllocationId::new(5));
    assert_eq!(chain.last, AllocationId::new(6));
    assert_eq!(chain.length, 2);
    assert!(data.get_chain_by_first_allocation(AllocationId::new(0)).is_none());
    assert_eq!(data.allocations[0].first_allocation_in_chain, None);
}

#[test]
fn loader_counts_totals_and_statistics() {
    let data = load(jemalloc_run(0x1000_0000, 0));
    assert_eq!(data.total_allocated, 10 + 100 + 1000 + 10000 + 100000 + 200 + 400);
    assert_eq!(data.total_allocated_count, 7);
    assert_eq!(data.total_freed, 100 + 1000 + 200 + 400);
    assert_eq!(data.total_freed_count, 4);
    let stats = data.get_group_statistics(BacktraceId::new(0));
    assert_eq!(stats.alloc_count, 7);
    assert_eq!(stats.free_count, 4);
    assert_eq!(stats.min_size, 10);
    assert_eq!(stats.max_size, 100000);
    assert_eq!(stats.first_allocation, Timestamp::from_usecs(10));
    assert_eq!(stats.last_allocation, Timestamp::from_usecs(17));
    assert_eq!(data.last_timestamp, Timestamp::from_usecs(18));
    assert_eq!(data.operations.len(), 7 + 2);
    assert_eq!(data.unique_backtrace_count(), 1);
    // Each of the three frames of the backtrace counts its seven allocations.
    assert_eq!(data.frames.len(), 3);
    for frame in &data.frames {
        assert_eq!(frame.count, 7);
    }
    assert_eq!(data.get_frame(0).address.raw(), 0x401000 - 1);
}

#[test]
fn loader_orders_allocations() {
    let events = vec![
        Event::Backtrace { id: 5, addresses: vec![0x10, 0x20] },
        allocate(30, 0x3000, 3, 1, 0),
        allocate(10, 0x1000, 1, 1, 0),
        allocate(20, 0x2000, 2, 1, 0),
        allocate(10, 0x500, 5, 1, 0),
    ];
    let events = events
        .into_iter()
        .map(|event| match event {
            Event::Alloc { timestamp, mut allocation } => {
                allocation.backtrace = 5;
                Event::Alloc { timestamp, allocation }
            },
            other => other,
        })
        .collect();
    let data = load(events);
    let ids = |ids: &Vec<AllocationId>| ids.iter().map(|id| id.raw()).collect::<Vec<u64>>();
    assert_eq!(ids(&data.sorted_by_timestamp), vec![1, 3, 2, 0]);
    assert_eq!(ids(&data.sorted_by_address), vec![3, 1, 2, 0]);
    assert_eq!(ids(&data.sorted_by_size), vec![1, 2, 0, 3]);

    // The sorted indexes answer range queries, both bounds inclusive.
    let raw = |ids: &[AllocationId]| ids.iter().map(|id| id.raw()).collect::<Vec<u64>>();
    let at = Timestamp::from_usecs;
    assert_eq!(raw(data.alloc_sorted_by_timestamp(None, None)), vec![1, 3, 2, 0]);
    assert_eq!(raw(data.alloc_sorted_by_timestamp(Some(at(10)), Some(at(20)))), vec![1, 3, 2]);
    assert_eq!(raw(data.alloc_sorted_by_timestamp(Some(at(11)), None)), vec![2, 0]);
    assert_eq!(raw(data.alloc_sorted_by_timestamp(None, Some(at(9)))), Vec::<u64>::new());
    assert_eq!(raw(data.alloc_sorted_by_timestamp(Some(at(31)), None)), Vec::<u64>::new());
    assert_eq!(raw(data.alloc_sorted_by_size(Some(2), Some(3))), vec![2, 0]);
    assert_eq!(raw(data.alloc_sorted_by_size(Some(4), Some(4))), Vec::<u64>::new());
    assert_eq!(raw(data.alloc_sorted_by_address(Some(0x1000), None)), vec![1, 2, 0]);
    assert_eq!(raw(data.alloc_sorted_by_address(None, Some(0x1000))), vec![3, 1]);
}

#[test]
fn loaded_data_reports_what_the_recording_holds() {
    let data = load(jemalloc_run(0x1000_0000, 0));
    assert_eq!(data.total_allocated(), data.total_allocated);
    assert_eq!(data.total_allocated_count(), 7);
    assert_eq!(data.total_freed(), 100 + 1000 + 200 + 400);
    assert_eq!(data.total_freed_count(), 4);
    assert_eq!(data.initial_timestamp(), Timestamp::from_usecs(0));
    assert_eq!(data.last_timestamp(), Timestamp::from_usecs(18));
    assert_eq!(data.pointer_size(), 8);
    assert_eq!(data.executable(), b"/tmp/run_test");
    assert_eq!(data.architecture(), "x86_64");
    assert_eq!(data.operation_ids().len(), 7 + 2);
    assert_eq!(data.maximum_backtrace_depth(), data.maximum_backtrace_depth);
    assert!(data.mallopts().is_empty());
    assert!(data.mmap_operations().is_empty());
}

#[test]
fn loader_ignores_duplicates_and_unknown_frees() {
    let events = vec![
        Event::Backtrace { id: 1, addresses: vec![0x10] },
        allocate(1, 0x1000, 8, 1, 0),
        allocate(2, 0x1000, 16, 1, 0),
        free(3, 0x9999, 1),
        free(4, 0x1000, 1),
        free(5, 0x1000, 1),
    ];
    let data = load(events);
    assert_eq!(data.allocations.len(), 1);
    assert_eq!(data.allocations[0].size, 8);
    assert!(data.allocations[0].deallocation.is_some());
    assert_eq!(data.total_freed_count, 1);
}

#[test]
fn loader_reuses_backtraces_and_frames() {
    let events = vec![
        Event::Backtrace { id: 1, addresses: vec![0x10, 0x20] },
        Event::Backtrace { id: 2, addresses: vec![0x10, 0x20] },
        Event::Backtrace { id: 3, addresses: vec![0x20, 0x30] },
    ];
    let data = load(events);
    assert_eq!(data.unique_backtrace_count(), 2);
    assert_eq!(data.frames.len(), 3);
    assert_eq!(data.get_frame_ids(BacktraceId::new(1)).to_vec(), vec![1, 2]);
}

#[test]
fn loader_refuses_unknown_backtraces() {
    let loader = Loader::new(header());
    assert!(!loader.can_process(&allocate(1, 0x1000, 8, 1, 0)));
}
