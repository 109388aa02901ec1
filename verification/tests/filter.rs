use ahash::AHashSet;
use bytehound::event::{AllocBody, DataId, Event, HeaderBody};
use bytehound::filter::{BasicFilter, Duration, Filter, NumberOrFractionOfTotal};
use bytehound::loaded::Data;
use bytehound::loader::Loader;
use bytehound::Timestamp;

fn header() -> HeaderBody {
    HeaderBody {
        id: DataId::new(3, 4),
        initial_timestamp: Timestamp::from_usecs(0),
        timestamp: Timestamp::from_usecs(0),
        wall_clock_secs: 0,
        wall_clock_nsecs: 0,
        pid: 1,
        cmdline: b"./filtered".to_vec(),
        executable: b"/tmp/filtered".to_vec(),
        arch: "x86_64".to_string(),
        flags: 0,
        pointer_size: 8,
    }
}

fn body(pointer: u64, size: u64, backtrace: u64) -> AllocBody {
    AllocBody { pointer, size, backtrace, thread: 1, flags: 0, extra_usable_space: 0, preceding_free_space: 0 }
}

fn at(usecs: u64) -> Timestamp {
    Timestamp::from_usecs(usecs)
}

/// Two backtraces: the first with three frames, the second with two. The
/// first makes a leaked and a freed allocation; the second makes one that
/// is reallocated and then freed.
fn data() -> Data {
    let events = vec![
        Event::Backtrace { id: 1, addresses: vec![0x1, 0x2, 0x3] },
        Event::Backtrace { id: 2, addresses: vec![0x4, 0x5] },
        Event::Alloc { timestamp: at(10), allocation: body(0x1000, 10, 1) },
        Event::Alloc { timestamp: at(20), allocation: body(0x2000, 100, 1) },
        Event::Free { timestamp: at(30), pointer: 0x2000, backtrace: 1, thread: 1 },
        Event::Alloc { timestamp: at(40), allocation: body(0x3000, 1000, 2) },
        Event::Realloc { timestamp: at(50), old_pointer: 0x3000, allocation: body(0x4000, 2000, 2) },
        Event::Free { timestamp: at(60), pointer: 0x4000, backtrace: 2, thread: 1 },
    ];
    let mut loader = Loader::new(header());
    for event in events {
        assert!(loader.can_process(&event));
        loader.process(event);
    }
    assert!(loader.can_finalize());
    loader.finalize()
}

fn matching(data: &Data, filter: &Filter) -> Vec<usize> {
    assert!(filter.can_compile_now(data));
    let compiled = filter.compile(data);
    let mut out = Vec::new();
    for (index, allocation) in data.allocations.iter().enumerate() {
        assert!(compiled.can_match_now(data, allocation));
        if compiled.try_match(data, allocation) {
            out.push(index);
        }
    }
    out
}

fn basic(f: impl FnOnce(&mut BasicFilter)) -> Filter {
    let mut filter = BasicFilter::default();
    f(&mut filter);
    Filter::Basic(filter)
}

#[test]
fn filter_without_bounds_passes_everything_alive_after_the_start() {
    let data = data();
    assert_eq!(data.allocations.len(), 4);
    assert_eq!(matching(&data, &basic(|_| {})), vec![0, 1, 2, 3]);
}

#[test]
fn filter_on_leaked_and_temporary_allocations() {
    let data = data();
    assert_eq!(matching(&data, &basic(|f| f.only_leaked = true)), vec![0]);
    assert_eq!(matching(&data, &basic(|f| f.only_temporary = true)), vec![1, 2, 3]);
    let both = basic(|f| {
        f.only_leaked = true;
        f.only_temporary = true;
    });
    assert!(matching(&data, &both).is_empty());
}

#[test]
fn filter_on_sizes_and_addresses() {
    let data = data();
    assert_eq!(matching(&data, &basic(|f| f.only_larger = Some(100))), vec![2, 3]);
    assert_eq!(matching(&data, &basic(|f| f.only_larger_or_equal = Some(100))), vec![1, 2, 3]);
    assert_eq!(matching(&data, &basic(|f| f.only_smaller = Some(100))), vec![0]);
    assert!(matching(&data, &basic(|f| f.only_larger = Some(u64::MAX))).is_empty());
    assert!(matching(&data, &basic(|f| f.only_smaller = Some(0))).is_empty());
    assert_eq!(matching(&data, &basic(|f| f.only_address_at_least = Some(0x3000))), vec![2, 3]);
}

#[test]
fn filter_on_times_and_lifetimes() {
    let data = data();
    let after = basic(|f| f.only_allocated_after_at_least = Some(Duration::from_usecs(40)));
    assert_eq!(matching(&data, &after), vec![2, 3]);
    let short_lived = basic(|f| f.only_alive_for_at_most = Some(Duration::from_usecs(10)));
    assert_eq!(matching(&data, &short_lived), vec![1, 2, 3]);
    let freed_late = basic(|f| f.only_deallocated_after_at_least = Some(Duration::from_usecs(55)));
    assert_eq!(matching(&data, &freed_late), vec![3]);
}

#[test]
fn filter_on_chains() {
    let data = data();
    assert_eq!(matching(&data, &basic(|f| f.only_chain_length_at_least = Some(2))), vec![2, 3]);
    assert_eq!(matching(&data, &basic(|f| f.only_first_size_larger = Some(500))), vec![2, 3]);
    assert_eq!(matching(&data, &basic(|f| f.only_last_size_smaller = Some(1500))), vec![0, 1]);
    assert_eq!(matching(&data, &basic(|f| f.only_chain_leaked = true)), vec![0]);
}

#[test]
fn filter_on_groups() {
    let data = data();
    assert_eq!(matching(&data, &basic(|f| f.only_group_allocations_at_least = Some(2))), vec![0, 1, 2, 3]);
    assert!(matching(&data, &basic(|f| f.only_group_allocations_at_least = Some(3))).is_empty());
    let leaky = basic(|f| f.only_group_leaked_allocations_at_least = Some(NumberOrFractionOfTotal::Number(1)));
    assert_eq!(matching(&data, &leaky), vec![0, 1]);
    let half_leaked = basic(|f| {
        f.only_group_leaked_allocations_at_least = Some(NumberOrFractionOfTotal::Fraction(500_000_000));
    });
    assert_eq!(matching(&data, &half_leaked), vec![0, 1]);
    let wide = basic(|f| f.only_group_interval_at_least = Some(Duration::from_usecs(10)));
    assert_eq!(matching(&data, &wide), vec![0, 1, 2, 3]);
}

#[test]
fn filter_on_backtraces() {
    let data = data();
    let long = basic(|f| f.only_backtrace_length_at_least = Some(3));
    assert_eq!(matching(&data, &long), vec![0, 1]);
    let mut first = AHashSet::new();
    first.insert(data.allocations[2].backtrace.0);
    let chosen = basic(move |f| f.only_matching_backtraces = Some(first));
    assert_eq!(matching(&data, &chosen), vec![2, 3]);
}

#[test]
fn filters_combine() {
    let data = data();
    let leaked = || basic(|f| f.only_leaked = true);
    let large = || basic(|f| f.only_larger = Some(500));
    assert_eq!(matching(&data, &Filter::Or(Box::new(leaked()), Box::new(large()))), vec![0, 2, 3]);
    assert!(matching(&data, &Filter::And(Box::new(leaked()), Box::new(large()))).is_empty());
    assert_eq!(matching(&data, &Filter::Not(Box::new(large()))), vec![0, 1]);
}

#[test]
fn limits_and_durations() {
    assert_eq!(NumberOrFractionOfTotal::Number(7).get(100), 7);
    assert_eq!(NumberOrFractionOfTotal::Fraction(500_000_000).get(3), 1);
    assert_eq!(NumberOrFractionOfTotal::Fraction(250_000_000).get(100), 25);
    assert_eq!(NumberOrFractionOfTotal::Fraction(u64::MAX).get(u64::MAX), u64::MAX);
    assert_eq!(Duration::from_secs(2), Duration(Timestamp::from_usecs(2_000_000)));
    assert_eq!(Duration::from_msecs(3), Duration(Timestamp::from_usecs(3_000)));
    assert_eq!(Duration::from_usecs(5).0, Timestamp::from_usecs(5));
}

fn unknown() -> u32 {
    0xFFFF_FFFF
}

fn decoded_frame(address: u64, raw_function: u32, function: u32, source: u32) -> Event {
    Event::DecodedFrame {
        address,
        library: unknown(),
        raw_function,
        function,
        source,
        line: unknown(),
        column: unknown(),
        is_inline: false,
    }
}

/// Three symbolized backtraces: `main -> parse` in `main.rs`/`parse.rs`,
/// `main -> render` with only a raw name for `render`, and `main` alone.
fn symbolized_data() -> Data {
    let events = vec![
        Event::String { id: 1, string: "main".to_string() },
        Event::String { id: 2, string: "parse_config".to_string() },
        Event::String { id: 3, string: "_ZN6render".to_string() },
        Event::String { id: 4, string: "src/main.rs".to_string() },
        Event::String { id: 5, string: "src/parse.rs".to_string() },
        decoded_frame(0x10, unknown(), 1, 4),
        decoded_frame(0x20, unknown(), 2, 5),
        decoded_frame(0x30, 3, unknown(), unknown()),
        Event::DecodedBacktrace { frames: vec![1, 0] },
        Event::DecodedBacktrace { frames: vec![2, 0] },
        Event::DecodedBacktrace { frames: vec![0] },
        Event::Alloc { timestamp: at(10), allocation: body(0x1000, 10, 0) },
        Event::Alloc { timestamp: at(20), allocation: body(0x2000, 20, 1) },
        Event::Alloc { timestamp: at(30), allocation: body(0x3000, 30, 2) },
    ];
    let mut loader = Loader::new(header());
    for event in events {
        assert!(loader.can_process(&event));
        loader.process(event);
    }
    assert!(loader.can_finalize());
    loader.finalize()
}

#[test]
fn filter_on_function_and_source_patterns() {
    let data = symbolized_data();
    let through_parse = basic(|f| f.only_passing_through_function = Some("^parse_".to_string()));
    assert_eq!(matching(&data, &through_parse), vec![0]);
    // A frame with no demangled name is matched by its raw name.
    let through_render = basic(|f| f.only_passing_through_function = Some("render".to_string()));
    assert_eq!(matching(&data, &through_render), vec![1]);
    let not_through_main = basic(|f| f.only_not_passing_through_function = Some("^main$".to_string()));
    assert_eq!(matching(&data, &not_through_main), Vec::<usize>::new());
    let from_parse_rs = basic(|f| f.only_passing_through_source = Some(r"parse\.rs$".to_string()));
    assert_eq!(matching(&data, &from_parse_rs), vec![0]);
    let not_from_parse_rs = basic(|f| f.only_not_passing_through_source = Some("parse".to_string()));
    assert_eq!(matching(&data, &not_from_parse_rs), vec![1, 2]);
    // Both positive patterns must hold of one and the same frame.
    let both = basic(|f| {
        f.only_passing_through_function = Some("main".to_string());
        f.only_passing_through_source = Some("parse".to_string());
    });
    assert_eq!(matching(&data, &both), Vec::<usize>::new());
    // A pattern that is not a regular expression cannot be compiled.
    let broken = basic(|f| f.only_passing_through_function = Some("(".to_string()));
    assert!(!broken.can_compile_now(&data));
    assert!(broken.compile_checked(&data).is_none());
}

#[test]
fn filter_on_when_a_group_first_held_the_most() {
    let data = data();
    // The first backtrace holds the most after its second allocation, at
    // 20; the second after its reallocation, at 50.
    let late = basic(|f| f.only_group_max_total_usage_first_seen_at_least = Some(Duration::from_usecs(30)));
    assert_eq!(matching(&data, &late), vec![2, 3]);
    let early = basic(|f| f.only_group_max_total_usage_first_seen_at_most = Some(Duration::from_usecs(20)));
    assert_eq!(matching(&data, &early), vec![0, 1]);
    let neither = basic(|f| {
        f.only_group_max_total_usage_first_seen_at_least = Some(Duration::from_usecs(21));
        f.only_group_max_total_usage_first_seen_at_most = Some(Duration::from_usecs(49));
    });
    assert_eq!(matching(&data, &neither), Vec::<usize>::new());
}
