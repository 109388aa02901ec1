//! Squeezing a recording: backtraces that were announced before are
//! dropped, partial backtraces are written out in full, and allocations are
//! held back until they are freed; those that lived no longer than a
//! threshold are left out and only counted in their backtrace's
//! statistics, while those that lived longer, or were never freed, are
//! written out, each as one allocation and its reallocations.

use vstd::prelude::*;
use ahash::AHashMap;
use crate::timestamp::Timestamp;
use crate::event::{Event, AllocBody, FramesInvalidated, expanded_backtrace, expand_partial_backtrace};
use crate::loader::{earlier, later, widened, widen, earlier_of, later_of};
use crate::index_maps::{
    number_positions, number_positions_new, number_positions_get, number_positions_insert,
    address_list_positions, address_list_positions_new, address_list_positions_get,
    address_list_positions_insert, thread_address_lists, thread_address_lists_new,
    thread_address_lists_get, thread_address_lists_insert, buckets_by_pointer,
    buckets_by_pointer_new, buckets_by_pointer_contains, buckets_by_pointer_insert,
    buckets_by_pointer_remove, buckets_by_pointer_events, stats_by_backtrace, stats_by_backtrace_new,
    stats_by_backtrace_get, stats_by_backtrace_insert, stats_by_backtrace_clone,
    thread_address_lists_none, address_list_positions_none, number_positions_none,
    stats_by_backtrace_none, buckets_by_pointer_none, buckets_by_pointer_entries,
    stats_by_backtrace_entries,
};
use crate::sorting::{stably_sorted, sort_by_key, keys_ascending, lemma_stably_sorted, lemma_stably_sorted_members};

verus! {

/// What is known of the allocations of one backtrace.
#[derive(Copy, Clone, Debug, PartialEq, Eq, Structural)]
pub struct SqueezeStats {
    pub first_allocation: Timestamp,
    pub last_allocation: Timestamp,
    pub free_count: u64,
    pub free_size: u64,
    pub min_size: u64,
    pub max_size: u64,
}

/// An allocation held back: when it was first seen among the others, and
/// its allocation and reallocations, in order.
pub struct Bucket {
    pub counter: u64,
    pub events: Vec<(Timestamp, AllocBody)>,
}

impl View for Bucket {
    type V = (u64, Seq<(Timestamp, AllocBody)>);

    open spec fn view(&self) -> (u64, Seq<(Timestamp, AllocBody)>) {
        (self.counter, self.events@)
    }
}

/// The usable size of an allocation: what was asked for, and the slack.
pub open spec fn usable_of(a: AllocBody) -> int {
    a.size + a.extra_usable_space
}

/// The smaller of two sizes.
pub open spec fn min_u64(a: u64, b: u64) -> u64 {
    if a <= b {
        a
    } else {
        b
    }
}

/// The larger of two sizes.
pub open spec fn max_u64(a: u64, b: u64) -> u64 {
    if a >= b {
        a
    } else {
        b
    }
}

/// Statistics once an allocation of `usable` bytes was seen at
/// `timestamp`, starting from `base`, or from that allocation alone: the
/// times and the smallest size take it in, and so does the size kept as the
/// largest, which takes the smaller of the two.
pub open spec fn seen_from(base: Option<SqueezeStats>, timestamp: Timestamp, usable: u64) -> SqueezeStats {
    let base = match base {
        Some(base) => base,
        None => SqueezeStats {
            first_allocation: timestamp,
            last_allocation: timestamp,
            free_count: 0,
            free_size: 0,
            min_size: usable,
            max_size: usable,
        },
    };
    SqueezeStats {
        first_allocation: earlier(base.first_allocation, timestamp),
        last_allocation: later(base.last_allocation, timestamp),
        free_count: base.free_count,
        free_size: base.free_size,
        min_size: min_u64(base.min_size, usable),
        max_size: min_u64(base.max_size, usable),
    }
}

/// The statistics of `backtrace` once an allocation of `usable` bytes was
/// seen from it at `timestamp`.
pub open spec fn stats_seen(stats: Map<u64, SqueezeStats>, backtrace: u64, timestamp: Timestamp, usable: u64) -> SqueezeStats {
    seen_from(
        if stats.contains_key(backtrace) {
            Some(stats[backtrace])
        } else {
            None
        },
        timestamp,
        usable,
    )
}

/// The statistics of `backtrace` once a summary of earlier allocations was
/// merged in.
pub open spec fn stats_merged_in(
    stats: Map<u64, SqueezeStats>,
    backtrace: u64,
    first_allocation: Timestamp,
    last_allocation: Timestamp,
    free_count: u64,
    free_size: u64,
    min_size: u64,
    max_size: u64,
) -> SqueezeStats {
    let base = if stats.contains_key(backtrace) {
        stats[backtrace]
    } else {
        SqueezeStats { first_allocation, last_allocation, free_count: 0, free_size: 0, min_size, max_size }
    };
    SqueezeStats {
        first_allocation: earlier(base.first_allocation, first_allocation),
        last_allocation: later(base.last_allocation, last_allocation),
        free_count: (base.free_count + free_count) as u64,
        free_size: (base.free_size + free_size) as u64,
        min_size: min_u64(base.min_size, min_size),
        max_size: max_u64(base.max_size, max_size),
    }
}

/// The statistics once each of `events` was counted as freed with its
/// backtrace.
pub open spec fn counted_as_freed(stats: Map<u64, SqueezeStats>, events: Seq<(Timestamp, AllocBody)>) -> Map<u64, SqueezeStats>
    decreases events.len(),
{
    if events.len() == 0 {
        stats
    } else {
        let before = counted_as_freed(stats, events.drop_last());
        let b = events.last().1.backtrace;
        let s = before[b];
        before.insert(
            b,
            SqueezeStats {
                free_count: (s.free_count + 1) as u64,
                free_size: (s.free_size + usable_of(events.last().1)) as u64,
                ..s
            },
        )
    }
}

/// Whether the counters can take each of `events` as freed.
pub open spec fn can_count_as_freed(stats: Map<u64, SqueezeStats>, events: Seq<(Timestamp, AllocBody)>) -> bool
    decreases events.len(),
{
    events.len() == 0 || {
        let before = counted_as_freed(stats, events.drop_last());
        let b = events.last().1.backtrace;
        &&& can_count_as_freed(stats, events.drop_last())
        &&& before.contains_key(b)
        &&& before[b].free_count + 1 <= u64::MAX
        &&& before[b].free_size + usable_of(events.last().1) <= u64::MAX
    }
}

/// The events that write out a held-back allocation: its allocation, then
/// each reallocation from where the one before it left the allocation.
pub open spec fn emitted(events: Seq<(Timestamp, AllocBody)>) -> Seq<Event> {
    Seq::new(
        events.len(),
        |i: int|
            if i == 0 {
                Event::Alloc { timestamp: events[0].0, allocation: events[0].1 }
            } else {
                Event::Realloc {
                    timestamp: events[i].0,
                    old_pointer: events[i - 1].1.pointer,
                    allocation: events[i].1,
                }
            },
    )
}

/// Whether `order` lists the held-back allocations by their pointers,
/// each once, in the order in which they were first seen.
pub open spec fn in_counter_order(buckets: Map<u64, (u64, Seq<(Timestamp, AllocBody)>)>, order: Seq<u64>) -> bool {
    &&& forall|i: int| #![trigger order[i]] 0 <= i < order.len() ==> buckets.contains_key(order[i])
    &&& forall|p: u64| buckets.contains_key(p) ==> exists|i: int| 0 <= i < order.len() && #[trigger] order[i] == p
    &&& forall|i: int, j: int|
        #![trigger order[i], order[j]]
        0 <= i < j < order.len() ==> buckets[order[i]].0 < buckets[order[j]].0
}

/// Whether `order` lists the backtraces with statistics, each once, in
/// ascending order.
pub open spec fn in_ascending_order(stats: Map<u64, SqueezeStats>, order: Seq<u64>) -> bool {
    &&& forall|i: int| #![trigger order[i]] 0 <= i < order.len() ==> stats.contains_key(order[i])
    &&& forall|b: u64| stats.contains_key(b) ==> exists|i: int| 0 <= i < order.len() && #[trigger] order[i] == b
    &&& forall|i: int, j: int| #![trigger order[i], order[j]] 0 <= i < j < order.len() ==> order[i] < order[j]
}

/// The events that write out the held-back allocations in `order`.
pub open spec fn emitted_in_order(buckets: Map<u64, (u64, Seq<(Timestamp, AllocBody)>)>, order: Seq<u64>) -> Seq<Event>
    decreases order.len(),
{
    if order.len() == 0 {
        Seq::empty()
    } else {
        emitted_in_order(buckets, order.drop_last()) + emitted(buckets[order.last()].1)
    }
}

/// The event that writes out the statistics of a backtrace.
pub open spec fn statistics_event(backtrace: u64, stats: SqueezeStats) -> Event {
    Event::GroupStatistics {
        backtrace,
        first_allocation: stats.first_allocation,
        last_allocation: stats.last_allocation,
        free_count: stats.free_count,
        free_size: stats.free_size,
        min_size: stats.min_size,
        max_size: stats.max_size,
    }
}

/// The events that write out the statistics of the backtraces in `order`.
pub open spec fn statistics_in_order(stats: Map<u64, SqueezeStats>, order: Seq<u64>) -> Seq<Event> {
    order.map_values(|b: u64| statistics_event(b, stats[b]))
}

/// Whether no two held-back allocations were first seen together.
pub open spec fn counters_distinct(buckets: Map<u64, (u64, Seq<(Timestamp, AllocBody)>)>) -> bool {
    forall|p: u64, q: u64|
        #![trigger buckets[p], buckets[q]]
        buckets.contains_key(p) && buckets.contains_key(q) && p != q ==> buckets[p].0 != buckets[q].0
}

/// Writes out the held-back allocations, in the order in which they were
/// first seen.
fn emit_buckets(map: AHashMap<u64, Bucket>) -> (result: (Vec<Event>, Ghost<Seq<u64>>))
    requires
        counters_distinct(buckets_by_pointer(map)),
    ensures
        in_counter_order(buckets_by_pointer(map), result.1@),
        result.0@ == emitted_in_order(buckets_by_pointer(map), result.1@),
{
    let ghost contents = buckets_by_pointer(map);
    let entries = buckets_by_pointer_entries(map);
    let n = entries.len();
    let mut keys: Vec<(u64, u64)> = Vec::new();
    let mut i: usize = 0;
    while i < n
        invariant
            n == entries@.len(),
            0 <= i <= n,
            keys@.len() == i,
            forall|k: int| #![trigger keys@[k]] 0 <= k < i ==> keys@[k] == (entries@[k].1.counter, k as u64),
        decreases n - i,
    {
        keys.push((entries[i].1.counter, i as u64));
        i = i + 1;
    }
    let ghost unsorted = keys@;
    proof {
        assert forall|a: int, b: int| 0 <= a < b < unsorted.len() implies unsorted[a] != unsorted[b] by {
            assert(unsorted[a].1 == a as u64);
            assert(unsorted[b].1 == b as u64);
        }
        assert(unsorted.no_duplicates());
    }
    sort_by_key(&mut keys);
    let ghost sorted = keys@;
    proof {
        lemma_stably_sorted(unsorted);
        lemma_stably_sorted_members(unsorted);
    }
    let mut out: Vec<Event> = Vec::new();
    let ghost mut order: Seq<u64> = Seq::empty();
    let mut k: usize = 0;
    while k < n
        invariant
            n == entries@.len(),
            keys@ == sorted,
            sorted == stably_sorted(unsorted),
            sorted.len() == n,
            unsorted.len() == n,
            forall|a: int| #![trigger unsorted[a]] 0 <= a < n ==> unsorted[a] == (entries@[a].1.counter, a as u64),
            forall|a: int| 0 <= a < n ==> unsorted.contains(#[trigger] sorted[a]),
            forall|a: int| #![trigger entries@[a]] 0 <= a < n ==> contents.contains_key(entries@[a].0)
                && entries@[a].1@ == contents[entries@[a].0],
            0 <= k <= n,
            order.len() == k,
            forall|a: int| #![trigger order[a]] 0 <= a < k ==> order[a] == entries@[sorted[a].1 as int].0 && sorted[a].1 < n,
            out@ == emitted_in_order(contents, order),
        decreases n - k,
    {
        let index = keys[k].1;
        proof {
            assert(unsorted.contains(sorted[k as int]));
            let m = choose|m: int| 0 <= m < unsorted.len() && unsorted[m] == sorted[k as int];
            assert(unsorted[m] == (entries@[m].1.counter, m as u64));
        }
        emit_into(&mut out, &entries[index as usize].1.events);
        proof {
            let key = entries@[index as int].0;
            let next = order.push(key);
            assert(next.drop_last() =~= order);
            order = next;
            assert(contents[key].1 == entries@[index as int].1.events@);
        }
        k = k + 1;
    }
    proof {
        assert forall|a: int| #![trigger order[a]] 0 <= a < order.len() implies contents.contains_key(order[a]) by {
            assert(contents.contains_key(entries@[sorted[a].1 as int].0));
        }
        assert forall|p: u64| contents.contains_key(p) implies exists|a: int| 0 <= a < order.len() && #[trigger] order[a] == p by {
            let m = choose|m: int| 0 <= m < entries@.len() && #[trigger] entries@[m].0 == p;
            assert(unsorted[m] == (entries@[m].1.counter, m as u64));
            assert(sorted.contains(unsorted[m]));
            let a = choose|a: int| 0 <= a < sorted.len() && sorted[a] == unsorted[m];
            assert(order[a] == p);
        }
        assert forall|a: int, b: int| #![trigger order[a], order[b]] 0 <= a < b < order.len() implies contents[order[a]].0 < contents[order[b]].0 by {
            let ma = sorted[a].1 as int;
            let mb = sorted[b].1 as int;
            assert(unsorted.contains(sorted[a]));
            assert(unsorted.contains(sorted[b]));
            let xa = choose|x: int| 0 <= x < unsorted.len() && unsorted[x] == sorted[a];
            let xb = choose|x: int| 0 <= x < unsorted.len() && unsorted[x] == sorted[b];
            assert(xa == ma);
            assert(xb == mb);
            assert(sorted[a].0 <= sorted[b].0);
            assert(contents[order[a]].0 == sorted[a].0);
            assert(contents[order[b]].0 == sorted[b].0);
            if ma == mb {
                assert(sorted[a] == sorted[b]);
            } else if contents[order[a]].0 == contents[order[b]].0 {
                assert(entries@[ma].0 != entries@[mb].0);
            }
        }
    }
    (out, Ghost(order))
}

/// Writes out the statistics of each backtrace, in ascending order of the
/// backtraces.
fn emit_statistics(map: AHashMap<u64, SqueezeStats>, out: &mut Vec<Event>) -> (order: Ghost<Seq<u64>>)
    ensures
        in_ascending_order(stats_by_backtrace(map), order@),
        final(out)@ == old(out)@ + statistics_in_order(stats_by_backtrace(map), order@),
{
    let ghost contents = stats_by_backtrace(map);
    let ghost start = out@;
    let entries = stats_by_backtrace_entries(map);
    let n = entries.len();
    let mut keys: Vec<(u64, u64)> = Vec::new();
    let mut i: usize = 0;
    while i < n
        invariant
            n == entries@.len(),
            0 <= i <= n,
            keys@.len() == i,
            forall|k: int| #![trigger keys@[k]] 0 <= k < i ==> keys@[k] == (entries@[k].0, k as u64),
        decreases n - i,
    {
        keys.push((entries[i].0, i as u64));
        i = i + 1;
    }
    let ghost unsorted = keys@;
    proof {
        assert forall|a: int, b: int| 0 <= a < b < unsorted.len() implies unsorted[a] != unsorted[b] by {
            assert(unsorted[a].1 == a as u64);
            assert(unsorted[b].1 == b as u64);
        }
        assert(unsorted.no_duplicates());
    }
    sort_by_key(&mut keys);
    let ghost sorted = keys@;
    proof {
        lemma_stably_sorted(unsorted);
        lemma_stably_sorted_members(unsorted);
    }
    let ghost mut order: Seq<u64> = Seq::empty();
    let mut k: usize = 0;
    while k < n
        invariant
            n == entries@.len(),
            keys@ == sorted,
            sorted == stably_sorted(unsorted),
            sorted.len() == n,
            unsorted.len() == n,
            forall|a: int| #![trigger unsorted[a]] 0 <= a < n ==> unsorted[a] == (entries@[a].0, a as u64),
            forall|a: int| 0 <= a < n ==> unsorted.contains(#[trigger] sorted[a]),
            forall|a: int| #![trigger entries@[a]] 0 <= a < n ==> contents.contains_key(entries@[a].0)
                && entries@[a].1 == contents[entries@[a].0],
            0 <= k <= n,
            order.len() == k,
            forall|a: int| #![trigger order[a]] 0 <= a < k ==> order[a] == sorted[a].0 && sorted[a].1 < n
                && entries@[sorted[a].1 as int].0 == sorted[a].0,
            out@ == start + statistics_in_order(contents, order),
        decreases n - k,
    {
        let index = keys[k].1;
        proof {
            assert(unsorted.contains(sorted[k as int]));
            let m = choose|m: int| 0 <= m < unsorted.len() && unsorted[m] == sorted[k as int];
            assert(unsorted[m] == (entries@[m].0, m as u64));
        }
        let (backtrace, stats) = entries[index as usize];
        out.push(Event::GroupStatistics {
            backtrace,
            first_allocation: stats.first_allocation,
            last_allocation: stats.last_allocation,
            free_count: stats.free_count,
            free_size: stats.free_size,
            min_size: stats.min_size,
            max_size: stats.max_size,
        });
        proof {
            let next = order.push(backtrace);
            assert(statistics_in_order(contents, next) =~= statistics_in_order(contents, order).push(
                statistics_event(backtrace, contents[backtrace]),
            ));
            order = next;
            assert(out@ =~= start + statistics_in_order(contents, order));
        }
        k = k + 1;
    }
    proof {
        assert forall|a: int| #![trigger order[a]] 0 <= a < order.len() implies contents.contains_key(order[a]) by {
            assert(contents.contains_key(entries@[sorted[a].1 as int].0));
        }
        assert forall|b: u64| contents.contains_key(b) implies exists|a: int| 0 <= a < order.len() && #[trigger] order[a] == b by {
            let m = choose|m: int| 0 <= m < entries@.len() && #[trigger] entries@[m].0 == b;
            assert(unsorted[m] == (entries@[m].0, m as u64));
            assert(sorted.contains(unsorted[m]));
            let a = choose|a: int| 0 <= a < sorted.len() && sorted[a] == unsorted[m];
            assert(order[a] == b);
        }
        assert forall|a: int, b: int| #![trigger order[a], order[b]] 0 <= a < b < order.len() implies order[a] < order[b] by {
            let ma = sorted[a].1 as int;
            let mb = sorted[b].1 as int;
            assert(sorted[a].0 <= sorted[b].0);
            assert(unsorted.contains(sorted[a]));
            assert(unsorted.contains(sorted[b]));
            let xa = choose|x: int| 0 <= x < unsorted.len() && unsorted[x] == sorted[a];
            let xb = choose|x: int| 0 <= x < unsorted.len() && unsorted[x] == sorted[b];
            assert(xa == ma);
            assert(xb == mb);
            if ma == mb {
                assert(sorted[a] == sorted[b]);
            }
        }
    }
    Ghost(order)
}

/// Whether `order` lists the members of `members`, each once, by
/// strictly increasing `key`.
pub open spec fn listed_by_key(members: Set<u64>, key: spec_fn(u64) -> int, order: Seq<u64>) -> bool {
    &&& forall|i: int| #![trigger order[i]] 0 <= i < order.len() ==> members.contains(order[i])
    &&& forall|p: u64| members.contains(p) ==> exists|i: int| 0 <= i < order.len() && #[trigger] order[i] == p
    &&& forall|i: int, j: int| #![trigger order[i], order[j]] 0 <= i < j < order.len() ==> key(order[i]) < key(order[j])
}

proof fn lemma_listed_prefix(members: Set<u64>, key: spec_fn(u64) -> int, a: Seq<u64>, b: Seq<u64>, n: int)
    requires
        listed_by_key(members, key, a),
        listed_by_key(members, key, b),
        0 <= n <= a.len(),
        n <= b.len(),
    ensures
        forall|k: int| 0 <= k < n ==> a[k] == b[k],
    decreases n,
{
    if n > 0 {
        let i = n - 1;
        lemma_listed_prefix(members, key, a, b, i);
        assert(members.contains(a[i]));
        let j = choose|j: int| 0 <= j < b.len() && #[trigger] b[j] == a[i];
        assert(members.contains(b[i]));
        let h = choose|h: int| 0 <= h < a.len() && #[trigger] a[h] == b[i];
        if j < i {
            assert(a[j] == b[j]);
            assert(key(a[j]) < key(a[i]));
        }
        if h < i {
            assert(a[h] == b[h]);
            assert(key(b[h]) < key(b[i]));
        }
        if j > i {
            assert(key(b[i]) < key(b[j]));
            if h > i {
                assert(key(a[i]) < key(a[h]));
            }
        }
    }
}

/// Two lists of the same members, each by strictly increasing key, are the
/// same list.
proof fn lemma_listed_unique(members: Set<u64>, key: spec_fn(u64) -> int, a: Seq<u64>, b: Seq<u64>)
    requires
        listed_by_key(members, key, a),
        listed_by_key(members, key, b),
    ensures
        a == b,
{
    if a.len() < b.len() {
        lemma_listed_prefix(members, key, a, b, a.len() as int);
        let i = a.len() as int;
        assert(members.contains(b[i]));
        let j = choose|j: int| 0 <= j < a.len() && #[trigger] a[j] == b[i];
        assert(a[j] == b[j]);
        assert(key(b[j]) < key(b[i]));
    } else if b.len() < a.len() {
        lemma_listed_prefix(members, key, b, a, b.len() as int);
        let i = b.len() as int;
        assert(members.contains(a[i]));
        let j = choose|j: int| 0 <= j < b.len() && #[trigger] b[j] == a[i];
        assert(b[j] == a[j]);
        assert(key(a[j]) < key(a[i]));
    } else {
        lemma_listed_prefix(members, key, a, b, a.len() as int);
        assert(a =~= b);
    }
}

/// What the end of a squeezing writes out depends on the state alone, not
/// on the order in which its maps are walked: the held-back allocations
/// can be put in the order in which they were first seen in one way only,
/// and so can the backtraces in ascending order.
pub proof fn lemma_finish_order_determined(
    state: SqueezeState,
    held: Seq<u64>,
    held_too: Seq<u64>,
    backtraces: Seq<u64>,
    backtraces_too: Seq<u64>,
)
    requires
        in_counter_order(state.buckets, held),
        in_counter_order(state.buckets, held_too),
        in_ascending_order(state.stats, backtraces),
        in_ascending_order(state.stats, backtraces_too),
    ensures
        held == held_too,
        backtraces == backtraces_too,
{
    let by_counter = |p: u64| state.buckets[p].0 as int;
    let by_value = |b: u64| b as int;
    assert(listed_by_key(state.buckets.dom(), by_counter, held));
    assert(listed_by_key(state.buckets.dom(), by_counter, held_too));
    assert(listed_by_key(state.stats.dom(), by_value, backtraces));
    assert(listed_by_key(state.stats.dom(), by_value, backtraces_too));
    lemma_listed_unique(state.buckets.dom(), by_counter, held, held_too);
    lemma_listed_unique(state.stats.dom(), by_value, backtraces, backtraces_too);
}

/// What the squeezing knows after the events so far.
pub struct SqueezeState {
    /// Each thread's latest full backtrace.
    pub previous_backtraces: Map<u32, Seq<u64>>,
    /// The identifier under which each list of addresses was first seen.
    pub backtrace_cache: Map<Seq<u64>, u64>,
    /// The identifier that each announced identifier stands for.
    pub backtrace_map: Map<u64, u64>,
    pub stats: Map<u64, SqueezeStats>,
    /// The allocations held back, by their current pointer.
    pub buckets: Map<u64, (u64, Seq<(Timestamp, AllocBody)>)>,
    /// How many allocations were held back so far.
    pub counter: u64,
    /// How long an allocation must live to be written out when it is
    /// freed, if such allocations are written out at all.
    pub threshold: Option<Timestamp>,
}

impl SqueezeState {
    /// Every held-back allocation has events, all from backtraces with
    /// statistics, and a counter of its own below the number of allocations
    /// held back so far.
    pub open spec fn valid(self) -> bool {
        &&& forall|p: u64|
            #![trigger self.buckets[p]]
            self.buckets.contains_key(p) ==> {
                &&& self.buckets[p].1.len() > 0
                &&& self.buckets[p].0 < self.counter
                &&& forall|i: int|
                    0 <= i < self.buckets[p].1.len() ==> self.stats.contains_key(
                        (#[trigger] self.buckets[p].1[i]).1.backtrace,
                    ) && usable_of(self.buckets[p].1[i].1) <= u64::MAX
            }
        &&& forall|p: u64, q: u64|
            #![trigger self.buckets[p], self.buckets[q]]
            self.buckets.contains_key(p) && self.buckets.contains_key(q) && p != q ==> self.buckets[p].0
                != self.buckets[q].0
    }

    /// The identifier that a list of addresses announced under `id` stands
    /// for: the one under which the same list was first seen.
    pub open spec fn cached_id(self, id: u64, addresses: Seq<u64>) -> u64 {
        if self.backtrace_cache.contains_key(addresses) {
            self.backtrace_cache[addresses]
        } else {
            id
        }
    }

    /// The state once a list of addresses was announced under `id`.
    pub open spec fn after_backtrace(self, id: u64, addresses: Seq<u64>) -> SqueezeState {
        SqueezeState {
            backtrace_cache: if self.backtrace_cache.contains_key(addresses) {
                self.backtrace_cache
            } else {
                self.backtrace_cache.insert(addresses, id)
            },
            backtrace_map: self.backtrace_map.insert(id, self.cached_id(id, addresses)),
            ..self
        }
    }

    /// The full backtrace that a thread's partial backtrace stands for.
    pub open spec fn expanded_for(self, thread: u32, frames_invalidated: FramesInvalidated, partial: Seq<u64>) -> Seq<u64> {
        expanded_backtrace(
            if self.previous_backtraces.contains_key(thread) {
                self.previous_backtraces[thread]
            } else {
                Seq::empty()
            },
            frames_invalidated,
            partial,
        )
    }

    /// The state once a thread's partial backtrace was announced.
    pub open spec fn after_partial_backtrace(
        self,
        id: u64,
        thread: u32,
        frames_invalidated: FramesInvalidated,
        partial: Seq<u64>,
    ) -> SqueezeState {
        let addresses = self.expanded_for(thread, frames_invalidated, partial);
        SqueezeState {
            previous_backtraces: self.previous_backtraces.insert(thread, addresses),
            ..self
        }.after_backtrace(id, addresses)
    }

    /// The allocation as it is held back: with the backtrace that its own
    /// stands for.
    pub open spec fn remapped(self, allocation: AllocBody) -> AllocBody {
        AllocBody { backtrace: self.backtrace_map[allocation.backtrace], ..allocation }
    }

    /// The state once an allocation was seen: its backtrace's statistics
    /// take it in, and it is held back unless an allocation is held back
    /// at its pointer already.
    pub open spec fn after_alloc(self, timestamp: Timestamp, allocation: AllocBody) -> SqueezeState {
        let allocation = self.remapped(allocation);
        let stats = self.stats.insert(
            allocation.backtrace,
            stats_seen(self.stats, allocation.backtrace, timestamp, usable_of(allocation) as u64),
        );
        if self.buckets.contains_key(allocation.pointer) {
            SqueezeState { stats, ..self }
        } else {
            SqueezeState {
                stats,
                buckets: self.buckets.insert(allocation.pointer, (self.counter, seq![(timestamp, allocation)])),
                counter: (self.counter + 1) as u64,
                ..self
            }
        }
    }

    /// The state once a reallocation was seen: its backtrace's statistics
    /// take it in, and the allocation held back at the old pointer moves to
    /// the new one with the reallocation added, unless another allocation
    /// is held back there, in which case it is dropped.
    pub open spec fn after_realloc(self, timestamp: Timestamp, old_pointer: u64, allocation: AllocBody) -> SqueezeState {
        let allocation = self.remapped(allocation);
        let stats = self.stats.insert(
            allocation.backtrace,
            stats_seen(self.stats, allocation.backtrace, timestamp, usable_of(allocation) as u64),
        );
        if !self.buckets.contains_key(old_pointer) {
            SqueezeState { stats, ..self }
        } else {
            let bucket = self.buckets[old_pointer];
            let rest = self.buckets.remove(old_pointer);
            if rest.contains_key(allocation.pointer) {
                SqueezeState { stats, buckets: rest, ..self }
            } else {
                SqueezeState {
                    stats,
                    buckets: rest.insert(allocation.pointer, (bucket.0, bucket.1.push((timestamp, allocation)))),
                    ..self
                }
            }
        }
    }

    /// Whether the allocation held back at `pointer`, freed at `timestamp`,
    /// lived longer than the threshold.
    pub open spec fn outlived_threshold(self, timestamp: Timestamp, pointer: u64) -> bool {
        let first = self.buckets[pointer].1[0].0;
        &&& first.0 <= timestamp.0
        &&& self.threshold matches Some(threshold) && timestamp.0 - first.0 > threshold.0
    }

    /// The state once a deallocation was seen: the allocation held back at
    /// the pointer, if any, is let go; unless it lived longer than the
    /// threshold, each of its events counts as freed in the statistics.
    pub open spec fn after_free(self, timestamp: Timestamp, pointer: u64) -> SqueezeState {
        if !self.buckets.contains_key(pointer) {
            self
        } else {
            let bucket = self.buckets[pointer];
            let rest = SqueezeState { buckets: self.buckets.remove(pointer), ..self };
            if self.outlived_threshold(timestamp, pointer) {
                rest
            } else {
                SqueezeState { stats: counted_as_freed(self.stats, bucket.1), ..rest }
            }
        }
    }

    /// The state once a summary of a backtrace's earlier allocations was
    /// seen.
    pub open spec fn after_group_statistics(
        self,
        backtrace: u64,
        first_allocation: Timestamp,
        last_allocation: Timestamp,
        free_count: u64,
        free_size: u64,
        min_size: u64,
        max_size: u64,
    ) -> SqueezeState {
        let b = self.backtrace_map[backtrace];
        SqueezeState {
            stats: self.stats.insert(
                b,
                stats_merged_in(self.stats, b, first_allocation, last_allocation, free_count, free_size, min_size, max_size),
            ),
            ..self
        }
    }

    /// The state after `event`.
    pub open spec fn next(self, event: Event) -> SqueezeState {
        match event {
            Event::Backtrace { id, addresses } => self.after_backtrace(id, addresses@),
            Event::PartialBacktrace { id, thread, frames_invalidated, addresses } => self.after_partial_backtrace(
                id,
                thread,
                frames_invalidated,
                addresses@,
            ),
            Event::PartialBacktrace32 { id, thread, frames_invalidated, addresses } => self.after_partial_backtrace(
                id,
                thread,
                frames_invalidated,
                widened(addresses@),
            ),
            Event::Alloc { timestamp, allocation } => self.after_alloc(timestamp, allocation),
            Event::Realloc { timestamp, old_pointer, allocation } => self.after_realloc(timestamp, old_pointer, allocation),
            Event::Free { timestamp, pointer, .. } => self.after_free(timestamp, pointer),
            Event::GroupStatistics {
                backtrace,
                first_allocation,
                last_allocation,
                free_count,
                free_size,
                min_size,
                max_size,
            } => self.after_group_statistics(
                backtrace,
                first_allocation,
                last_allocation,
                free_count,
                free_size,
                min_size,
                max_size,
            ),
            _ => self,
        }
    }

    /// Whether `out` is what is written out for `event`: a backtrace once,
    /// under the identifier it was first seen with, and in full; for a
    /// freed allocation that outlived the threshold, its events and the
    /// deallocation; maps, unmaps and `mallopt` calls with the backtrace
    /// their own stands for; allocations, reallocations, other
    /// deallocations and statistics not at all; everything else as it is.
    pub open spec fn written(self, event: Event, out: Seq<Event>) -> bool {
        match event {
            Event::Backtrace { id, addresses } => out == (if self.cached_id(id, addresses@) == id {
                seq![event]
            } else {
                Seq::empty()
            }),
            Event::PartialBacktrace { id, thread, frames_invalidated, addresses } => {
                let full = self.expanded_for(thread, frames_invalidated, addresses@);
                if self.cached_id(id, full) == id {
                    &&& out.len() == 1
                    &&& out[0] is Backtrace
                    &&& out[0]->Backtrace_id == id
                    &&& out[0]->Backtrace_addresses@ == full
                } else {
                    out.len() == 0
                }
            },
            Event::PartialBacktrace32 { id, thread, frames_invalidated, addresses } => {
                let full = self.expanded_for(thread, frames_invalidated, widened(addresses@));
                if self.cached_id(id, full) == id {
                    &&& out.len() == 1
                    &&& out[0] is Backtrace
                    &&& out[0]->Backtrace_id == id
                    &&& out[0]->Backtrace_addresses@ == full
                } else {
                    out.len() == 0
                }
            },
            Event::Alloc { .. } => out.len() == 0,
            Event::Realloc { .. } => out.len() == 0,
            Event::Free { timestamp, pointer, .. } => out == (if self.buckets.contains_key(pointer)
                && self.outlived_threshold(timestamp, pointer) {
                emitted(self.buckets[pointer].1).push(event)
            } else {
                Seq::empty()
            }),
            Event::GroupStatistics { .. } => out.len() == 0,
            Event::MemoryMap {
                timestamp,
                pointer,
                length,
                backtrace,
                requested_address,
                mmap_protection,
                mmap_flags,
                file_descriptor,
                thread,
                offset,
            } => out == seq![
                Event::MemoryMap {
                    timestamp,
                    pointer,
                    length,
                    backtrace: self.backtrace_map[backtrace],
                    requested_address,
                    mmap_protection,
                    mmap_flags,
                    file_descriptor,
                    thread,
                    offset,
                },
            ],
            Event::MemoryUnmap { timestamp, pointer, length, backtrace, thread } => out == seq![
                Event::MemoryUnmap { timestamp, pointer, length, backtrace: self.backtrace_map[backtrace], thread },
            ],
            Event::Mallopt { timestamp, backtrace, thread, param, value, result } => out == seq![
                Event::Mallopt { timestamp, backtrace: self.backtrace_map[backtrace], thread, param, value, result },
            ],
            _ => out == seq![event],
        }
    }

    /// Whether the squeezing takes `event` in: the backtraces it refers to
    /// were announced, and the sizes and counters have room for it.
    pub open spec fn accepts(self, event: Event) -> bool {
        match event {
            Event::Alloc { allocation, .. } => {
                &&& self.backtrace_map.contains_key(allocation.backtrace)
                &&& usable_of(allocation) <= u64::MAX
                &&& !self.buckets.contains_key(allocation.pointer) ==> self.counter < u64::MAX
            },
            Event::Realloc { allocation, .. } => {
                &&& self.backtrace_map.contains_key(allocation.backtrace)
                &&& usable_of(allocation) <= u64::MAX
            },
            Event::Free { timestamp, pointer, .. } => self.buckets.contains_key(pointer)
                && !self.outlived_threshold(timestamp, pointer) ==> can_count_as_freed(
                self.stats,
                self.buckets[pointer].1,
            ),
            Event::MemoryMap { backtrace, .. } => self.backtrace_map.contains_key(backtrace),
            Event::MemoryUnmap { backtrace, .. } => self.backtrace_map.contains_key(backtrace),
            Event::Mallopt { backtrace, .. } => self.backtrace_map.contains_key(backtrace),
            Event::GroupStatistics { backtrace, free_count, free_size, .. } => {
                &&& self.backtrace_map.contains_key(backtrace)
                &&& self.stats.contains_key(self.backtrace_map[backtrace]) ==> {
                    &&& self.stats[self.backtrace_map[backtrace]].free_count + free_count <= u64::MAX
                    &&& self.stats[self.backtrace_map[backtrace]].free_size + free_size <= u64::MAX
                }
            },
            _ => true,
        }
    }
}

/// An allocation made at a pointer where none is held back, then freed:
/// neither event is written where it lived no longer than the threshold
/// (or where no threshold is set), and otherwise its allocation is written
/// with the deallocation; either way it is held back no more.
pub proof fn lemma_allocation_then_free(
    s: SqueezeState,
    allocated: Timestamp,
    allocation: AllocBody,
    freed: Timestamp,
    backtrace: u64,
    thread: u32,
)
    requires
        !s.buckets.contains_key(allocation.pointer),
    ensures
        ({
            let alloc = Event::Alloc { timestamp: allocated, allocation };
            let free = Event::Free { timestamp: freed, pointer: allocation.pointer, backtrace, thread };
            let s1 = s.next(alloc);
            let long_lived = s.threshold matches Some(threshold) && allocated.0 <= freed.0 && freed.0
                - allocated.0 > threshold.0;
            &&& s.written(alloc, Seq::empty())
            &&& s1.written(
                free,
                if long_lived {
                    seq![Event::Alloc { timestamp: allocated, allocation: s.remapped(allocation) }, free]
                } else {
                    Seq::empty()
                },
            )
            &&& !s1.next(free).buckets.contains_key(allocation.pointer)
        }),
{
    let alloc = Event::Alloc { timestamp: allocated, allocation };
    let free = Event::Free { timestamp: freed, pointer: allocation.pointer, backtrace, thread };
    let s1 = s.next(alloc);
    let held = seq![(allocated, s.remapped(allocation))];
    assert(s1.buckets[allocation.pointer] == (s.counter, held));
    assert(emitted(held).push(free) =~= seq![
        Event::Alloc { timestamp: allocated, allocation: s.remapped(allocation) },
        free,
    ]);
}

/// The squeezing of a recording, one event at a time.
pub struct Squeezer {
    previous_backtrace_on_thread: AHashMap<u32, Vec<u64>>,
    backtrace_cache: AHashMap<Vec<u64>, u64>,
    backtrace_map: AHashMap<u64, u64>,
    stats_by_backtrace: AHashMap<u64, SqueezeStats>,
    allocations_by_pointer: AHashMap<u64, Bucket>,
    allocation_counter: u64,
    threshold: Option<Timestamp>,
}

impl View for Squeezer {
    type V = SqueezeState;

    closed spec fn view(&self) -> SqueezeState {
        SqueezeState {
            previous_backtraces: thread_address_lists(self.previous_backtrace_on_thread),
            backtrace_cache: address_list_positions(self.backtrace_cache),
            backtrace_map: number_positions(self.backtrace_map),
            stats: stats_by_backtrace(self.stats_by_backtrace),
            buckets: buckets_by_pointer(self.allocations_by_pointer),
            counter: self.allocation_counter,
            threshold: self.threshold,
        }
    }
}

pub(crate) fn seen_stats(base: Option<SqueezeStats>, timestamp: Timestamp, usable: u64) -> (stats: SqueezeStats)
    ensures
        stats == seen_from(base, timestamp, usable),
{
    let base = match base {
        Some(base) => base,
        None => SqueezeStats {
            first_allocation: timestamp,
            last_allocation: timestamp,
            free_count: 0,
            free_size: 0,
            min_size: usable,
            max_size: usable,
        },
    };
    SqueezeStats {
        first_allocation: earlier_of(base.first_allocation, timestamp),
        last_allocation: later_of(base.last_allocation, timestamp),
        free_count: base.free_count,
        free_size: base.free_size,
        min_size: if base.min_size <= usable { base.min_size } else { usable },
        max_size: if base.max_size <= usable { base.max_size } else { usable },
    }
}

/// One event to write out.
fn single(event: Event) -> (out: Vec<Event>)
    ensures
        out@ == seq![event],
{
    let mut out: Vec<Event> = Vec::new();
    out.push(event);
    proof {
        assert(out@ =~= seq![event]);
    }
    out
}

/// Appends the events that write out a held-back allocation.
fn emit_into(out: &mut Vec<Event>, events: &Vec<(Timestamp, AllocBody)>)
    ensures
        final(out)@ == old(out)@ + emitted(events@),
{
    let ghost before = out@;
    let mut i: usize = 0;
    while i < events.len()
        invariant
            0 <= i <= events@.len(),
            out@ == before + emitted(events@).take(i as int),
        decreases events@.len() - i,
    {
        let (timestamp, allocation) = events[i];
        if i == 0 {
            out.push(Event::Alloc { timestamp, allocation });
        } else {
            let old_pointer = events[i - 1].1.pointer;
            out.push(Event::Realloc { timestamp, old_pointer, allocation });
        }
        i = i + 1;
        proof {
            assert(out@ =~= before + emitted(events@).take(i as int));
        }
    }
    proof {
        assert(emitted(events@).take(events@.len() as int) =~= emitted(events@));
    }
}

/// Counts each of `events` as freed in the statistics.
fn count_as_freed(stats: &mut AHashMap<u64, SqueezeStats>, events: &Vec<(Timestamp, AllocBody)>)
    requires
        can_count_as_freed(stats_by_backtrace(*old(stats)), events@),
        forall|i: int| 0 <= i < events@.len() ==> usable_of(#[trigger] events@[i].1) <= u64::MAX,
    ensures
        stats_by_backtrace(*final(stats)) == counted_as_freed(stats_by_backtrace(*old(stats)), events@),
{
    let ghost start = stats_by_backtrace(*stats);
    let mut i: usize = 0;
    proof {
        assert(events@.take(0) =~= Seq::<(Timestamp, AllocBody)>::empty());
    }
    while i < events.len()
        invariant
            0 <= i <= events@.len(),
            can_count_as_freed(start, events@),
            forall|k: int| 0 <= k < events@.len() ==> usable_of(#[trigger] events@[k].1) <= u64::MAX,
            stats_by_backtrace(*stats) == counted_as_freed(start, events@.take(i as int)),
        decreases events@.len() - i,
    {
        proof {
            lemma_can_count_prefix(start, events@, i + 1);
            assert(events@.take(i + 1).drop_last() =~= events@.take(i as int));
            assert(events@.take(i + 1).last() == events@[i as int]);
        }
        let allocation = events[i].1;
        let current = stats_by_backtrace_get(stats, allocation.backtrace).unwrap();
        let usable = allocation.size + allocation.extra_usable_space as u64;
        let updated = SqueezeStats {
            free_count: current.free_count + 1,
            free_size: current.free_size + usable,
            ..current
        };
        stats_by_backtrace_insert(stats, allocation.backtrace, updated);
        i = i + 1;
    }
    proof {
        assert(events@.take(events@.len() as int) =~= events@);
    }
}

proof fn lemma_can_count_prefix(stats: Map<u64, SqueezeStats>, events: Seq<(Timestamp, AllocBody)>, k: int)
    requires
        can_count_as_freed(stats, events),
        0 <= k <= events.len(),
    ensures
        can_count_as_freed(stats, events.take(k)),
    decreases events.len() - k,
{
    if k < events.len() {
        assert(events.take(k + 1).drop_last() =~= events.take(k));
        lemma_can_count_prefix(stats, events, k + 1);
    } else {
        assert(events.take(k) =~= events);
    }
}

proof fn lemma_can_count_extends(stats: Map<u64, SqueezeStats>, events: Seq<(Timestamp, AllocBody)>, k: int)
    requires
        0 <= k < events.len(),
        !can_count_as_freed(stats, events.take(k + 1)),
    ensures
        !can_count_as_freed(stats, events),
    decreases events.len() - k,
{
    if k + 1 < events.len() {
        if can_count_as_freed(stats, events) {
            lemma_can_count_prefix(stats, events, k + 1);
        }
    } else {
        assert(events.take(k + 1) =~= events);
    }
}

proof fn lemma_counted_keeps_keys(stats: Map<u64, SqueezeStats>, events: Seq<(Timestamp, AllocBody)>)
    requires
        can_count_as_freed(stats, events),
    ensures
        counted_as_freed(stats, events).dom() =~= stats.dom(),
    decreases events.len(),
{
    if events.len() > 0 {
        lemma_counted_keeps_keys(stats, events.drop_last());
    }
}

impl Squeezer {
    pub closed spec fn wf(&self) -> bool {
        self@.valid()
    }

    /// Ends the squeezing: writes out the allocations still held back, in
    /// the order in which they were first seen, then the statistics of each
    /// backtrace, in ascending order of the backtraces.
    pub fn finish(self) -> (out: Vec<Event>)
        requires
            self.wf(),
        ensures
            exists|held: Seq<u64>, backtraces: Seq<u64>|
                #![trigger in_counter_order(self@.buckets, held), in_ascending_order(self@.stats, backtraces)]
                {
                    &&& in_counter_order(self@.buckets, held)
                    &&& in_ascending_order(self@.stats, backtraces)
                    &&& out@ == emitted_in_order(self@.buckets, held) + statistics_in_order(self@.stats, backtraces)
                },
    {
        let ghost state = self@;
        let (mut out, held) = emit_buckets(self.allocations_by_pointer);
        let backtraces = emit_statistics(self.stats_by_backtrace, &mut out);
        proof {
            assert(in_counter_order(state.buckets, held@));
            assert(in_ascending_order(state.stats, backtraces@));
        }
        out
    }

    /// A squeezing that writes out the allocations freed after living
    /// longer than `threshold_secs` seconds, or, without a threshold, none
    /// of the freed ones.
    pub fn new(threshold_secs: Option<u64>) -> (squeezer: Squeezer)
        requires
            threshold_secs matches Some(secs) ==> secs * 1_000_000 <= u64::MAX,
        ensures
            squeezer.wf(),
            squeezer@.previous_backtraces == thread_address_lists_none(),
            squeezer@.backtrace_cache == address_list_positions_none(),
            squeezer@.backtrace_map == number_positions_none(),
            squeezer@.stats == stats_by_backtrace_none(),
            squeezer@.buckets == buckets_by_pointer_none(),
            squeezer@.counter == 0,
            squeezer@.threshold == (match threshold_secs {
                Some(secs) => Some(Timestamp((secs * 1_000_000) as u64)),
                None => None::<Timestamp>,
            }),
    {
        let threshold = match threshold_secs {
            Some(secs) => Some(Timestamp::from_secs(secs)),
            None => None,
        };
        Squeezer {
            previous_backtrace_on_thread: thread_address_lists_new(),
            backtrace_cache: address_list_positions_new(),
            backtrace_map: number_positions_new(),
            stats_by_backtrace: stats_by_backtrace_new(),
            allocations_by_pointer: buckets_by_pointer_new(),
            allocation_counter: 0,
            threshold,
        }
    }

    /// Takes a list of addresses announced under `id` in: whether the list
    /// was first seen under `id`, and is to be written out.
    pub(crate) fn see_backtrace(&mut self, id: u64, addresses: &Vec<u64>) -> (is_new: bool)
        requires
            old(self).wf(),
        ensures
            final(self).wf(),
            final(self)@ == old(self)@.after_backtrace(id, addresses@),
            is_new == (old(self)@.cached_id(id, addresses@) == id),
    {
        match address_list_positions_get(&self.backtrace_cache, addresses.as_slice()) {
            Some(cached) => {
                number_positions_insert(&mut self.backtrace_map, id, cached);
                proof {
                    assert(self@ =~= old(self)@.after_backtrace(id, addresses@));
                }
                cached == id
            },
            None => {
                let key = addresses.clone();
                proof {
                    assert(key@ =~= addresses@);
                }
                address_list_positions_insert(&mut self.backtrace_cache, key, id);
                number_positions_insert(&mut self.backtrace_map, id, id);
                proof {
                    assert(self@ =~= old(self)@.after_backtrace(id, addresses@));
                }
                true
            },
        }
    }

    /// Takes a thread's partial backtrace in; gives the full backtrace, and
    /// whether it is to be written out.
    pub(crate) fn see_partial_backtrace(
        &mut self,
        id: u64,
        thread: u32,
        frames_invalidated: FramesInvalidated,
        partial: &Vec<u64>,
    ) -> (result: (Vec<u64>, bool))
        requires
            old(self).wf(),
        ensures
            final(self).wf(),
            final(self)@ == old(self)@.after_partial_backtrace(id, thread, frames_invalidated, partial@),
            result.0@ == old(self)@.expanded_for(thread, frames_invalidated, partial@),
            result.1 == (old(self)@.cached_id(id, result.0@) == id),
    {
        let previous = match thread_address_lists_get(&self.previous_backtrace_on_thread, thread) {
            Some(previous) => previous,
            None => Vec::new(),
        };
        let full = expand_partial_backtrace(&previous, frames_invalidated, partial);
        let latest = full.clone();
        proof {
            assert(latest@ =~= full@);
        }
        thread_address_lists_insert(&mut self.previous_backtrace_on_thread, thread, latest);
        let is_new = self.see_backtrace(id, &full);
        (full, is_new)
    }

    /// The backtrace that `backtrace` stands for, if it was announced.
    pub(crate) fn lookup_backtrace(&self, backtrace: u64) -> (id: Option<u64>)
        ensures
            id == (if self@.backtrace_map.contains_key(backtrace) {
                Some(self@.backtrace_map[backtrace])
            } else {
                None::<u64>
            }),
    {
        number_positions_get(&self.backtrace_map, backtrace)
    }

    fn remap(&self, backtrace: u64) -> (id: u64)
        requires
            self@.backtrace_map.contains_key(backtrace),
        ensures
            id == self@.backtrace_map[backtrace],
    {
        number_positions_get(&self.backtrace_map, backtrace).unwrap()
    }

    fn see_allocation(&mut self, timestamp: Timestamp, allocation: AllocBody) -> (remapped: AllocBody)
        requires
            old(self).wf(),
            old(self)@.backtrace_map.contains_key(allocation.backtrace),
            usable_of(allocation) <= u64::MAX,
        ensures
            final(self).wf(),
            remapped == old(self)@.remapped(allocation),
            final(self)@ == (SqueezeState {
                stats: old(self)@.stats.insert(
                    remapped.backtrace,
                    stats_seen(old(self)@.stats, remapped.backtrace, timestamp, usable_of(remapped) as u64),
                ),
                ..old(self)@
            }),
    {
        let usable = allocation.size + allocation.extra_usable_space as u64;
        let backtrace = self.remap(allocation.backtrace);
        let remapped = AllocBody { backtrace, ..allocation };
        let base = stats_by_backtrace_get(&self.stats_by_backtrace, backtrace);
        let stats = seen_stats(base, timestamp, usable);
        stats_by_backtrace_insert(&mut self.stats_by_backtrace, backtrace, stats);
        proof {
            let o = old(self)@;
            assert(stats == stats_seen(o.stats, backtrace, timestamp, usable));
            assert(self@ =~= (SqueezeState {
                stats: o.stats.insert(backtrace, stats_seen(o.stats, backtrace, timestamp, usable)),
                ..o
            }));
            let s = self@;
            assert forall|p: u64| #![trigger s.buckets[p]] s.buckets.contains_key(p) implies {
                &&& s.buckets[p].1.len() > 0
                &&& s.buckets[p].0 < s.counter
                &&& forall|i: int| 0 <= i < s.buckets[p].1.len() ==> s.stats.contains_key((#[trigger] s.buckets[p].1[i]).1.backtrace) && usable_of(s.buckets[p].1[i].1) <= u64::MAX
            } by {
                assert(o.buckets[p] == s.buckets[p]);
            }
        }
        remapped
    }

    fn handle_realloc(&mut self, timestamp: Timestamp, old_pointer: u64, allocation: AllocBody)
        requires
            old(self).wf(),
            old(self)@.accepts(Event::Realloc { timestamp, old_pointer, allocation }),
        ensures
            final(self).wf(),
            final(self)@ == old(self)@.after_realloc(timestamp, old_pointer, allocation),
    {
        let ghost received = allocation;
        let allocation = self.see_allocation(timestamp, allocation);
        let ghost seen = self@;
        let removed = buckets_by_pointer_remove(&mut self.allocations_by_pointer, old_pointer);
        let mut bucket = match removed {
            Some(bucket) => bucket,
            None => {
                proof {
                    assert(self@.buckets =~= seen.buckets);
                    assert(self@ =~= old(self)@.after_realloc(timestamp, old_pointer, received));
                }
                return ;
            },
        };
        if buckets_by_pointer_contains(&self.allocations_by_pointer, allocation.pointer) {
            proof {
                let s = self@;
                assert forall|p: u64| #![trigger s.buckets[p]] s.buckets.contains_key(p) implies {
                    &&& s.buckets[p].1.len() > 0
                    &&& s.buckets[p].0 < s.counter
                    &&& forall|i: int| 0 <= i < s.buckets[p].1.len() ==> s.stats.contains_key((#[trigger] s.buckets[p].1[i]).1.backtrace) && usable_of(s.buckets[p].1[i].1) <= u64::MAX
                } by {
                    assert(seen.buckets[p] == s.buckets[p]);
                }
                assert forall|p: u64, q: u64|
                    #![trigger s.buckets[p], s.buckets[q]]
                    s.buckets.contains_key(p) && s.buckets.contains_key(q) && p != q implies s.buckets[p].0 != s.buckets[q].0 by {
                    assert(seen.buckets[p] == s.buckets[p]);
                    assert(seen.buckets[q] == s.buckets[q]);
                }
                assert(self@ =~= old(self)@.after_realloc(timestamp, old_pointer, received));
            }
            return ;
        }
        let ghost moved = bucket@;
        bucket.events.push((timestamp, allocation));
        let ghost rest = self@;
        buckets_by_pointer_insert(&mut self.allocations_by_pointer, allocation.pointer, bucket);
        proof {
            let s = self@;
            let key = allocation.pointer;
            assert(s.buckets[key] == (moved.0, moved.1.push((timestamp, allocation))));
            assert forall|p: u64| #![trigger s.buckets[p]] s.buckets.contains_key(p) implies {
                &&& s.buckets[p].1.len() > 0
                &&& s.buckets[p].0 < s.counter
                &&& forall|i: int| 0 <= i < s.buckets[p].1.len() ==> s.stats.contains_key((#[trigger] s.buckets[p].1[i]).1.backtrace) && usable_of(s.buckets[p].1[i].1) <= u64::MAX
            } by {
                if p != key {
                    assert(seen.buckets[p] == s.buckets[p]);
                } else {
                    assert(seen.buckets[old_pointer] == moved);
                    assert forall|i: int| 0 <= i < s.buckets[p].1.len() implies s.stats.contains_key((#[trigger] s.buckets[p].1[i]).1.backtrace) && usable_of(s.buckets[p].1[i].1) <= u64::MAX by {
                        if i < moved.1.len() {
                            assert(s.buckets[p].1[i] == moved.1[i]);
                            assert(seen.stats.contains_key(seen.buckets[old_pointer].1[i].1.backtrace));
                        }
                    }
                }
            }
            assert forall|p: u64, q: u64|
                #![trigger s.buckets[p], s.buckets[q]]
                s.buckets.contains_key(p) && s.buckets.contains_key(q) && p != q implies s.buckets[p].0 != s.buckets[q].0 by {
                if p != key && q != key {
                    assert(seen.buckets[p] == s.buckets[p]);
                    assert(seen.buckets[q] == s.buckets[q]);
                } else if p != key {
                    assert(seen.buckets[p] == s.buckets[p]);
                    assert(p != old_pointer);
                    assert(seen.buckets[old_pointer].0 == s.buckets[q].0);
                } else {
                    assert(seen.buckets[q] == s.buckets[q]);
                    assert(q != old_pointer);
                    assert(seen.buckets[old_pointer].0 == s.buckets[p].0);
                }
            }
            assert(s =~= old(self)@.after_realloc(timestamp, old_pointer, received));
        }
    }

    fn handle_free(&mut self, timestamp: Timestamp, pointer: u64, backtrace: u64, thread: u32) -> (out: Vec<Event>)
        requires
            old(self).wf(),
            old(self)@.accepts(Event::Free { timestamp, pointer, backtrace, thread }),
        ensures
            final(self).wf(),
            final(self)@ == old(self)@.after_free(timestamp, pointer),
            old(self)@.written(Event::Free { timestamp, pointer, backtrace, thread }, out@),
    {
        let ghost start = self@;
        let removed = buckets_by_pointer_remove(&mut self.allocations_by_pointer, pointer);
        let bucket = match removed {
            Some(bucket) => bucket,
            None => {
                proof {
                    assert(self@.buckets =~= start.buckets);
                    assert(self@ =~= start.after_free(timestamp, pointer));
                }
                return Vec::new();
            },
        };
        proof {
            let s = self@;
            assert forall|p: u64| #![trigger s.buckets[p]] s.buckets.contains_key(p) implies {
                &&& s.buckets[p].1.len() > 0
                &&& s.buckets[p].0 < s.counter
                &&& forall|i: int| 0 <= i < s.buckets[p].1.len() ==> s.stats.contains_key((#[trigger] s.buckets[p].1[i]).1.backtrace) && usable_of(s.buckets[p].1[i].1) <= u64::MAX
            } by {
                assert(start.buckets[p] == s.buckets[p]);
            }
            assert forall|p: u64, q: u64|
                #![trigger s.buckets[p], s.buckets[q]]
                s.buckets.contains_key(p) && s.buckets.contains_key(q) && p != q implies s.buckets[p].0 != s.buckets[q].0 by {
                assert(start.buckets[p] == s.buckets[p]);
                assert(start.buckets[q] == s.buckets[q]);
            }
            assert(start.buckets[pointer] == bucket@);
            assert(bucket@.1.len() > 0);
        }
        let first = bucket.events[0].0;
        match self.threshold {
            Some(threshold) => {
                if first.0 <= timestamp.0 && timestamp.0 - first.0 > threshold.0 {
                    let mut out: Vec<Event> = Vec::new();
                    emit_into(&mut out, &bucket.events);
                    out.push(Event::Free { timestamp, pointer, backtrace, thread });
                    proof {
                        assert(self@ =~= start.after_free(timestamp, pointer));
                    }
                    return out;
                }
            },
            None => {},
        }
        let ghost rest = self@;
        proof {
            assert forall|i: int| 0 <= i < bucket.events@.len() implies usable_of(#[trigger] bucket.events@[i].1) <= u64::MAX by {
                assert(bucket.events@[i] == start.buckets[pointer].1[i]);
            }
        }
        count_as_freed(&mut self.stats_by_backtrace, &bucket.events);
        proof {
            let s = self@;
            lemma_counted_keeps_keys(rest.stats, bucket@.1);
            assert forall|p: u64| #![trigger s.buckets[p]] s.buckets.contains_key(p) implies {
                &&& s.buckets[p].1.len() > 0
                &&& s.buckets[p].0 < s.counter
                &&& forall|i: int| 0 <= i < s.buckets[p].1.len() ==> s.stats.contains_key((#[trigger] s.buckets[p].1[i]).1.backtrace) && usable_of(s.buckets[p].1[i].1) <= u64::MAX
            } by {
                assert(rest.buckets[p] == s.buckets[p]);
                assert forall|i: int| 0 <= i < s.buckets[p].1.len() implies s.stats.contains_key((#[trigger] s.buckets[p].1[i]).1.backtrace) && usable_of(s.buckets[p].1[i].1) <= u64::MAX by {
                    assert(rest.stats.contains_key(rest.buckets[p].1[i].1.backtrace));
                }
            }
            assert(s =~= start.after_free(timestamp, pointer));
        }
        Vec::new()
    }

    fn handle_group_statistics(
        &mut self,
        backtrace: u64,
        first_allocation: Timestamp,
        last_allocation: Timestamp,
        free_count: u64,
        free_size: u64,
        min_size: u64,
        max_size: u64,
    )
        requires
            old(self).wf(),
            old(self)@.accepts(
                Event::GroupStatistics {
                    backtrace,
                    first_allocation,
                    last_allocation,
                    free_count,
                    free_size,
                    min_size,
                    max_size,
                },
            ),
        ensures
            final(self).wf(),
            final(self)@ == old(self)@.after_group_statistics(
                backtrace,
                first_allocation,
                last_allocation,
                free_count,
                free_size,
                min_size,
                max_size,
            ),
    {
        let b = self.remap(backtrace);
        let base = match stats_by_backtrace_get(&self.stats_by_backtrace, b) {
            Some(base) => base,
            None => SqueezeStats { first_allocation, last_allocation, free_count: 0, free_size: 0, min_size, max_size },
        };
        let merged = SqueezeStats {
            first_allocation: earlier_of(base.first_allocation, first_allocation),
            last_allocation: later_of(base.last_allocation, last_allocation),
            free_count: base.free_count + free_count,
            free_size: base.free_size + free_size,
            min_size: if base.min_size <= min_size { base.min_size } else { min_size },
            max_size: if base.max_size >= max_size { base.max_size } else { max_size },
        };
        let ghost before = self@;
        stats_by_backtrace_insert(&mut self.stats_by_backtrace, b, merged);
        proof {
            let s = self@;
            assert forall|p: u64| #![trigger s.buckets[p]] s.buckets.contains_key(p) implies {
                &&& s.buckets[p].1.len() > 0
                &&& s.buckets[p].0 < s.counter
                &&& forall|i: int| 0 <= i < s.buckets[p].1.len() ==> s.stats.contains_key((#[trigger] s.buckets[p].1[i]).1.backtrace) && usable_of(s.buckets[p].1[i].1) <= u64::MAX
            } by {
                assert(before.buckets[p] == s.buckets[p]);
            }
            assert(s =~= old(self)@.after_group_statistics(
                backtrace,
                first_allocation,
                last_allocation,
                free_count,
                free_size,
                min_size,
                max_size,
            ));
        }
    }

    /// Takes in one event of the recording, and gives the events to write
    /// out in its place.
    pub fn process(&mut self, event: Event) -> (out: Vec<Event>)
        requires
            old(self).wf(),
            old(self)@.accepts(event),
        ensures
            final(self).wf(),
            final(self)@ == old(self)@.next(event),
            old(self)@.written(event, out@),
    {
        let ghost start = self@;
        let ghost received = event;
        let out = match event {
            Event::Backtrace { id, addresses } => {
                let is_new = self.see_backtrace(id, &addresses);
                let mut out: Vec<Event> = Vec::new();
                if is_new {
                    out.push(Event::Backtrace { id, addresses });
                }
                proof {
                    if is_new {
                        assert(out@ =~= seq![event]);
                    } else {
                        assert(out@ =~= Seq::<Event>::empty());
                    }
                }
                out
            },
            Event::PartialBacktrace { id, thread, frames_invalidated, addresses } => {
                let (full, is_new) = self.see_partial_backtrace(id, thread, frames_invalidated, &addresses);
                if is_new {
                    single(Event::Backtrace { id, addresses: full })
                } else {
                    Vec::new()
                }
            },
            Event::PartialBacktrace32 { id, thread, frames_invalidated, addresses } => {
                let wide = widen(&addresses);
                let (full, is_new) = self.see_partial_backtrace(id, thread, frames_invalidated, &wide);
                if is_new {
                    single(Event::Backtrace { id, addresses: full })
                } else {
                    Vec::new()
                }
            },
            Event::Alloc { timestamp, allocation } => {
                self.handle_alloc(timestamp, allocation);
                Vec::new()
            },
            Event::Realloc { timestamp, old_pointer, allocation } => {
                self.handle_realloc(timestamp, old_pointer, allocation);
                Vec::new()
            },
            Event::Free { timestamp, pointer, backtrace, thread } => {
                self.handle_free(timestamp, pointer, backtrace, thread)
            },
            Event::MemoryMap {
                timestamp,
                pointer,
                length,
                backtrace,
                requested_address,
                mmap_protection,
                mmap_flags,
                file_descriptor,
                thread,
                offset,
            } => {
                let backtrace = self.remap(backtrace);
                single(
                    Event::MemoryMap {
                        timestamp,
                        pointer,
                        length,
                        backtrace,
                        requested_address,
                        mmap_protection,
                        mmap_flags,
                        file_descriptor,
                        thread,
                        offset,
                    },
                )
            },
            Event::MemoryUnmap { timestamp, pointer, length, backtrace, thread } => {
                let backtrace = self.remap(backtrace);
                single(Event::MemoryUnmap { timestamp, pointer, length, backtrace, thread })
            },
            Event::Mallopt { timestamp, backtrace, thread, param, value, result } => {
                let backtrace = self.remap(backtrace);
                single(Event::Mallopt { timestamp, backtrace, thread, param, value, result })
            },
            Event::GroupStatistics {
                backtrace,
                first_allocation,
                last_allocation,
                free_count,
                free_size,
                min_size,
                max_size,
            } => {
                self.handle_group_statistics(
                    backtrace,
                    first_allocation,
                    last_allocation,
                    free_count,
                    free_size,
                    min_size,
                    max_size,
                );
                Vec::new()
            },
            other => single(other),
        };
        proof {
            assert(start.written(received, out@));
        }
        out
    }

    /// Whether the counters can take each of `events` as freed.
    fn can_count_now(&self, events: &Vec<(Timestamp, AllocBody)>) -> (r: bool)
        ensures
            r == can_count_as_freed(self@.stats, events@),
    {
        let ghost start = self@.stats;
        let mut stats = stats_by_backtrace_clone(&self.stats_by_backtrace);
        let mut i: usize = 0;
        proof {
            assert(events@.take(0) =~= Seq::<(Timestamp, AllocBody)>::empty());
        }
        while i < events.len()
            invariant
                start == self@.stats,
                0 <= i <= events@.len(),
                can_count_as_freed(start, events@.take(i as int)),
                stats_by_backtrace(stats) == counted_as_freed(start, events@.take(i as int)),
            decreases events@.len() - i,
        {
            proof {
                assert(events@.take(i + 1).drop_last() =~= events@.take(i as int));
                assert(events@.take(i + 1).last() == events@[i as int]);
            }
            let allocation = events[i].1;
            let current = match stats_by_backtrace_get(&stats, allocation.backtrace) {
                Some(current) => current,
                None => {
                    proof {
                        lemma_can_count_extends(start, events@, i as int);
                    }
                    return false;
                },
            };
            let usable = match allocation.size.checked_add(allocation.extra_usable_space as u64) {
                Some(usable) => usable,
                None => {
                    proof {
                        lemma_can_count_extends(start, events@, i as int);
                    }
                    return false;
                },
            };
            if current.free_count == u64::MAX || current.free_size.checked_add(usable).is_none() {
                proof {
                    lemma_can_count_extends(start, events@, i as int);
                }
                return false;
            }
            let updated = SqueezeStats {
                free_count: current.free_count + 1,
                free_size: current.free_size + usable,
                ..current
            };
            stats_by_backtrace_insert(&mut stats, allocation.backtrace, updated);
            i = i + 1;
        }
        proof {
            assert(events@.take(events@.len() as int) =~= events@);
        }
        true
    }

    /// Whether the squeezing takes `event` in; where it does not, the event
    /// refers to a backtrace that was not announced, or overflows a size or
    /// a counter.
    pub fn can_process(&self, event: &Event) -> (r: bool)
        requires
            self.wf(),
        ensures
            r == self@.accepts(*event),
    {
        match event {
            Event::Alloc { allocation, .. } => {
                number_positions_get(&self.backtrace_map, allocation.backtrace).is_some()
                    && allocation.size.checked_add(allocation.extra_usable_space as u64).is_some() && (
                buckets_by_pointer_contains(&self.allocations_by_pointer, allocation.pointer)
                    || self.allocation_counter < u64::MAX)
            },
            Event::Realloc { allocation, .. } => {
                number_positions_get(&self.backtrace_map, allocation.backtrace).is_some()
                    && allocation.size.checked_add(allocation.extra_usable_space as u64).is_some()
            },
            Event::Free { timestamp, pointer, .. } => {
                match buckets_by_pointer_events(&self.allocations_by_pointer, *pointer) {
                    None => true,
                    Some(events) => {
                        proof {
                            assert(self@.buckets[*pointer].1.len() > 0);
                        }
                        let first = events[0].0;
                        let outlived = match self.threshold {
                            Some(threshold) => first.0 <= timestamp.0 && timestamp.0 - first.0 > threshold.0,
                            None => false,
                        };
                        outlived || self.can_count_now(&events)
                    },
                }
            },
            Event::MemoryMap { backtrace, .. } => number_positions_get(&self.backtrace_map, *backtrace).is_some(),
            Event::MemoryUnmap { backtrace, .. } => number_positions_get(&self.backtrace_map, *backtrace).is_some(),
            Event::Mallopt { backtrace, .. } => number_positions_get(&self.backtrace_map, *backtrace).is_some(),
            Event::GroupStatistics { backtrace, free_count, free_size, .. } => {
                match number_positions_get(&self.backtrace_map, *backtrace) {
                    None => false,
                    Some(b) => match stats_by_backtrace_get(&self.stats_by_backtrace, b) {
                        None => true,
                        Some(stats) => stats.free_count.checked_add(*free_count).is_some()
                            && stats.free_size.checked_add(*free_size).is_some(),
                    },
                }
            },
            _ => true,
        }
    }

    fn handle_alloc(&mut self, timestamp: Timestamp, allocation: AllocBody)
        requires
            old(self).wf(),
            old(self)@.accepts(Event::Alloc { timestamp, allocation }),
        ensures
            final(self).wf(),
            final(self)@ == old(self)@.after_alloc(timestamp, allocation),
    {
        let ghost received = allocation;
        let allocation = self.see_allocation(timestamp, allocation);
        if buckets_by_pointer_contains(&self.allocations_by_pointer, allocation.pointer) {
            proof {
                assert(self@ =~= old(self)@.after_alloc(timestamp, received));
            }
            return ;
        }
        let counter = self.allocation_counter;
        self.allocation_counter = counter + 1;
        let mut events: Vec<(Timestamp, AllocBody)> = Vec::new();
        events.push((timestamp, allocation));
        let ghost seen = self@;
        buckets_by_pointer_insert(&mut self.allocations_by_pointer, allocation.pointer, Bucket { counter, events });
        proof {
            let s = self@;
            let key = allocation.pointer;
            assert(s.buckets[key].1 =~= seq![(timestamp, allocation)]);
            assert forall|p: u64| #![trigger s.buckets[p]] s.buckets.contains_key(p) implies {
                &&& s.buckets[p].1.len() > 0
                &&& s.buckets[p].0 < s.counter
                &&& forall|i: int| 0 <= i < s.buckets[p].1.len() ==> s.stats.contains_key((#[trigger] s.buckets[p].1[i]).1.backtrace) && usable_of(s.buckets[p].1[i].1) <= u64::MAX
            } by {
                if p != key {
                    assert(seen.buckets[p] == s.buckets[p]);
                }
            }
            assert forall|p: u64, q: u64|
                #![trigger s.buckets[p], s.buckets[q]]
                s.buckets.contains_key(p) && s.buckets.contains_key(q) && p != q implies s.buckets[p].0 != s.buckets[q].0 by {
                if p != key && q != key {
                    assert(seen.buckets[p] == s.buckets[p]);
                    assert(seen.buckets[q] == s.buckets[q]);
                } else if p != key {
                    assert(seen.buckets[p] == s.buckets[p]);
                } else {
                    assert(seen.buckets[q] == s.buckets[q]);
                }
            }
            assert(s =~= old(self)@.after_alloc(timestamp, received));
        }
    }
}

} // verus!
