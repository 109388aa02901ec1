use bytehound::event::{AllocBody, Event, FramesInvalidated};
use bytehound::squeeze::Squeezer;
use bytehound::Timestamp;

fn body(pointer: u64, size: u64, backtrace: u64) -> AllocBody {
    AllocBody {
        pointer,
        size,
        backtrace,
        thread: 1,
        flags: 0,
        extra_usable_space: 0,
        preceding_free_space: 0,
    }
}

fn feed(squeezer: &mut Squeezer, event: Event) -> Vec<Event> {
    assert!(squeezer.can_process(&event));
    squeezer.process(event)
}

fn at(usecs: u64) -> Timestamp {
    Timestamp::from_usecs(usecs)
}

#[test]
fn squeeze_culls_short_lived_allocations() {
    let mut squeezer = Squeezer::new(Some(1));

    let out = feed(&mut squeezer, Event::Backtrace { id: 1, addresses: vec![10, 20] });
    assert_eq!(out, vec![Event::Backtrace { id: 1, addresses: vec![10, 20] }]);
    let out = feed(&mut squeezer, Event::Backtrace { id: 2, addresses: vec![10, 20] });
    assert!(out.is_empty());

    assert!(feed(&mut squeezer, Event::Alloc { timestamp: at(100), allocation: body(0x1000, 1235, 1) }).is_empty());
    assert!(feed(&mut squeezer, Event::Free { timestamp: at(200), pointer: 0x1000, backtrace: 1, thread: 1 }).is_empty());
    assert!(feed(&mut squeezer, Event::Alloc { timestamp: at(300), allocation: body(0x2000, 1236, 2) }).is_empty());
    assert!(feed(&mut squeezer, Event::Alloc { timestamp: at(400), allocation: body(0x3000, 2000, 1) }).is_empty());
    let realloc = Event::Realloc { timestamp: at(500), old_pointer: 0x3000, allocation: body(0x4000, 3000, 1) };
    assert!(feed(&mut squeezer, realloc).is_empty());

    let free = Event::Free { timestamp: at(2_000_000), pointer: 0x4000, backtrace: 1, thread: 1 };
    let out = feed(&mut squeezer, free.clone());
    assert_eq!(
        out,
        vec![
            Event::Alloc { timestamp: at(400), allocation: body(0x3000, 2000, 1) },
            Event::Realloc { timestamp: at(500), old_pointer: 0x3000, allocation: body(0x4000, 3000, 1) },
            free,
        ]
    );

    let out = squeezer.finish();
    assert_eq!(
        out,
        vec![
            Event::Alloc { timestamp: at(300), allocation: body(0x2000, 1236, 1) },
            Event::GroupStatistics {
                backtrace: 1,
                first_allocation: at(100),
                last_allocation: at(500),
                free_count: 1,
                free_size: 1235,
                min_size: 1235,
                max_size: 1235,
            },
        ]
    );
}

#[test]
fn squeeze_without_threshold_culls_every_freed_allocation() {
    let mut squeezer = Squeezer::new(None);
    feed(&mut squeezer, Event::Backtrace { id: 7, addresses: vec![1] });
    assert!(feed(&mut squeezer, Event::Alloc { timestamp: at(10), allocation: body(0x10, 8, 7) }).is_empty());
    let out = feed(&mut squeezer, Event::Free { timestamp: at(100_000_000), pointer: 0x10, backtrace: 7, thread: 1 });
    assert!(out.is_empty());
    assert_eq!(
        squeezer.finish(),
        vec![Event::GroupStatistics {
            backtrace: 7,
            first_allocation: at(10),
            last_allocation: at(10),
            free_count: 1,
            free_size: 8,
            min_size: 8,
            max_size: 8,
        }]
    );
}

#[test]
fn squeeze_writes_live_allocations_in_the_order_they_came() {
    let mut squeezer = Squeezer::new(Some(1));
    feed(&mut squeezer, Event::Backtrace { id: 3, addresses: vec![5] });
    feed(&mut squeezer, Event::Backtrace { id: 1, addresses: vec![6] });
    let pointers = [0x9000u64, 0x1000, 0x5000, 0x3000, 0x7000];
    for (n, pointer) in pointers.iter().enumerate() {
        let backtrace = if n % 2 == 0 { 3 } else { 1 };
        feed(&mut squeezer, Event::Alloc { timestamp: at(n as u64), allocation: body(*pointer, 16, backtrace) });
    }
    let out = squeezer.finish();
    assert_eq!(out.len(), pointers.len() + 2);
    for (n, pointer) in pointers.iter().enumerate() {
        match &out[n] {
            Event::Alloc { timestamp, allocation } => {
                assert_eq!(*timestamp, at(n as u64));
                assert_eq!(allocation.pointer, *pointer);
            }
            other => panic!("unexpected event {:?}", other),
        }
    }
    match (&out[5], &out[6]) {
        (Event::GroupStatistics { backtrace: a, .. }, Event::GroupStatistics { backtrace: b, .. }) => {
            assert_eq!((*a, *b), (1, 3));
        }
        other => panic!("unexpected events {:?}", other),
    }
}

#[test]
fn squeeze_writes_partial_backtraces_in_full() {
    let mut squeezer = Squeezer::new(None);
    let out = feed(
        &mut squeezer,
        Event::PartialBacktrace { id: 1, thread: 4, frames_invalidated: FramesInvalidated::All, addresses: vec![1, 2, 3] },
    );
    assert_eq!(out, vec![Event::Backtrace { id: 1, addresses: vec![1, 2, 3] }]);
    let out = feed(
        &mut squeezer,
        Event::PartialBacktrace { id: 2, thread: 4, frames_invalidated: FramesInvalidated::Count(1), addresses: vec![9] },
    );
    assert_eq!(out, vec![Event::Backtrace { id: 2, addresses: vec![9, 2, 3] }]);
    let out = feed(
        &mut squeezer,
        Event::PartialBacktrace { id: 3, thread: 4, frames_invalidated: FramesInvalidated::Count(1), addresses: vec![9] },
    );
    assert!(out.is_empty());
}

#[test]
fn squeeze_remaps_backtraces_of_passing_events() {
    let mut squeezer = Squeezer::new(None);
    feed(&mut squeezer, Event::Backtrace { id: 1, addresses: vec![4, 4] });
    feed(&mut squeezer, Event::Backtrace { id: 2, addresses: vec![4, 4] });
    let out = feed(
        &mut squeezer,
        Event::MemoryUnmap { timestamp: at(1), pointer: 0x1000, length: 4096, backtrace: 2, thread: 1 },
    );
    assert_eq!(out, vec![Event::MemoryUnmap { timestamp: at(1), pointer: 0x1000, length: 4096, backtrace: 1, thread: 1 }]);
    let unknown = Event::Mallopt { timestamp: at(1), backtrace: 99, thread: 1, param: 1, value: 2, result: 0 };
    assert!(!squeezer.can_process(&unknown));
}

#[test]
fn squeeze_counts_a_free_from_the_past_as_freed() {
    let mut squeezer = Squeezer::new(Some(1));
    feed(&mut squeezer, Event::Backtrace { id: 1, addresses: vec![1] });
    feed(&mut squeezer, Event::Alloc { timestamp: at(5_000_000), allocation: body(0x10, 32, 1) });
    let out = feed(&mut squeezer, Event::Free { timestamp: at(1), pointer: 0x10, backtrace: 1, thread: 1 });
    assert!(out.is_empty());
    match &squeezer.finish()[..] {
        [Event::GroupStatistics { free_count, free_size, .. }] => assert_eq!((*free_count, *free_size), (1, 32)),
        other => panic!("unexpected events {:?}", other),
    }
}
