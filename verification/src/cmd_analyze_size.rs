//! How much of a recording each kind of event takes: the events are tallied
//! by kind, and the kinds are reported from the largest share down.

use vstd::prelude::*;
use crate::event::Event;
use crate::util::{decimal, push_decimal};

verus! {

/// The kinds of events that the tally tells apart.
pub const S_OTHER: usize = 0;
pub const S_ALLOC: usize = 1;
pub const S_REALLOC: usize = 2;
pub const S_FREE: usize = 3;
pub const S_BACKTRACE: usize = 4;
pub const S_FILE: usize = 5;
/// The number of kinds.
pub const S_MAX: usize = 6;

/// The kind under which an event is tallied.
pub open spec fn kind_of(event: Event) -> usize {
    match event {
        Event::Alloc { .. } => S_ALLOC,
        Event::Realloc { .. } => S_REALLOC,
        Event::Free { .. } => S_FREE,
        Event::Backtrace { .. } => S_BACKTRACE,
        Event::PartialBacktrace { .. } => S_BACKTRACE,
        Event::PartialBacktrace32 { .. } => S_BACKTRACE,
        Event::File { .. } => S_FILE,
        _ => S_OTHER,
    }
}

/// The kind under which an event is tallied.
pub fn event_kind(event: &Event) -> (kind: usize)
    ensures
        kind == kind_of(*event),
        kind < S_MAX,
{
    match event {
        Event::Alloc { .. } => S_ALLOC,
        Event::Realloc { .. } => S_REALLOC,
        Event::Free { .. } => S_FREE,
        Event::Backtrace { .. } | Event::PartialBacktrace { .. } | Event::PartialBacktrace32 { .. } => S_BACKTRACE,
        Event::File { .. } => S_FILE,
        _ => S_OTHER,
    }
}

/// Whether an event carries a backtrace, whole or in part.
pub open spec fn carries_backtrace(e: Event) -> bool {
    e is Backtrace || e is PartialBacktrace || e is PartialBacktrace32
}

/// Allocations, reallocations, deallocations, backtraces and files are each
/// tallied under a kind of their own, named by its constant, which no event
/// of another sort shares; every kind is one of the `S_MAX` kinds.
pub proof fn lemma_kinds_tell_events_apart(a: Event, b: Event)
    ensures
        kind_of(a) < S_MAX,
        a is Alloc ==> kind_of(a) == S_ALLOC,
        a is Realloc ==> kind_of(a) == S_REALLOC,
        a is Free ==> kind_of(a) == S_FREE,
        a is File ==> kind_of(a) == S_FILE,
        carries_backtrace(a) ==> kind_of(a) == S_BACKTRACE,
        (a is Alloc) != (b is Alloc) ==> kind_of(a) != kind_of(b),
        (a is Realloc) != (b is Realloc) ==> kind_of(a) != kind_of(b),
        (a is Free) != (b is Free) ==> kind_of(a) != kind_of(b),
        (a is File) != (b is File) ==> kind_of(a) != kind_of(b),
        carries_backtrace(a) != carries_backtrace(b) ==> kind_of(a) != kind_of(b),
{
}

/// Tallying an event adds its bytes and one to its own kind and leaves
/// every other kind as it was.
pub proof fn lemma_tally_touches_one_kind(stats: Seq<Stats>, event: Event, size: usize, after: Seq<Stats>, other: Event)
    requires
        can_tally(stats, event, size),
        after == stats.update(
            kind_of(event) as int,
            Stats {
                size: (stats[kind_of(event) as int].size + size) as usize,
                count: (stats[kind_of(event) as int].count + 1) as usize,
            },
        ),
    ensures
        after[kind_of(event) as int].count == stats[kind_of(event) as int].count + 1,
        after[kind_of(event) as int].size == stats[kind_of(event) as int].size + size,
        (event is Realloc) != (other is Realloc) || (event is Alloc) != (other is Alloc) ==> after[kind_of(other) as int]
            == stats[kind_of(other) as int],
{
    lemma_kinds_tell_events_apart(event, other);
}

/// How many bytes the events of one kind take, and how many there are.
#[derive(Copy, Clone, Debug, PartialEq, Eq, Structural)]
pub struct Stats {
    pub size: usize,
    pub count: usize,
}

/// An empty tally.
pub fn new_tally() -> (stats: Vec<Stats>)
    ensures
        stats@.len() == S_MAX,
        forall|k: int| 0 <= k < S_MAX ==> #[trigger] stats@[k] == (Stats { size: 0, count: 0 }),
{
    let mut stats: Vec<Stats> = Vec::new();
    while stats.len() < S_MAX
        invariant
            stats@.len() <= S_MAX,
            forall|k: int| 0 <= k < stats@.len() ==> #[trigger] stats@[k] == (Stats { size: 0, count: 0 }),
        decreases S_MAX - stats@.len(),
    {
        stats.push(Stats { size: 0, count: 0 });
    }
    stats
}

/// Whether an event of `size` bytes can be tallied without a count
/// outgrowing its type.
pub open spec fn can_tally(stats: Seq<Stats>, event: Event, size: usize) -> bool {
    &&& stats.len() == S_MAX
    &&& stats[kind_of(event) as int].size + size <= usize::MAX
    &&& stats[kind_of(event) as int].count + 1 <= usize::MAX
}

/// Tallies an event that takes `size` bytes.
pub fn tally(stats: &mut Vec<Stats>, event: &Event, size: usize)
    requires
        can_tally(old(stats)@, *event, size),
    ensures
        final(stats)@ == old(stats)@.update(
            kind_of(*event) as int,
            Stats {
                size: (old(stats)@[kind_of(*event) as int].size + size) as usize,
                count: (old(stats)@[kind_of(*event) as int].count + 1) as usize,
            },
        ),
{
    let kind = event_kind(event);
    let current = stats[kind];
    stats.set(kind, Stats { size: current.size + size, count: current.count + 1 });
}

/// Whether `order` lists the kinds, each once, from the largest size down,
/// kinds of equal size in their own order.
pub open spec fn by_size(stats: Seq<Stats>, order: Seq<usize>) -> bool {
    &&& order.len() == stats.len()
    &&& forall|i: int| #![trigger order[i]] 0 <= i < order.len() ==> order[i] < stats.len()
    &&& forall|i: int, j: int|
        #![trigger order[i], order[j]]
        0 <= i < j < order.len() ==> stats[order[i] as int].size > stats[order[j] as int].size || (
        stats[order[i] as int].size == stats[order[j] as int].size && order[i] < order[j])
}

/// The kinds, from the largest size down.
pub fn report_order(stats: &Vec<Stats>) -> (order: Vec<usize>)
    requires
        stats@.len() == S_MAX,
    ensures
        by_size(stats@, order@),
{
    let mut order: Vec<usize> = Vec::new();
    let mut k: usize = 0;
    while k < S_MAX
        invariant
            stats@.len() == S_MAX,
            0 <= k <= S_MAX,
            order@.len() == k,
            forall|i: int| #![trigger order@[i]] 0 <= i < k ==> order@[i] < k,
            forall|i: int, j: int|
                #![trigger order@[i], order@[j]]
                0 <= i < j < k ==> stats@[order@[i] as int].size > stats@[order@[j] as int].size || (
                stats@[order@[i] as int].size == stats@[order@[j] as int].size && order@[i] < order@[j]),
        decreases S_MAX - k,
    {
        let size = stats[k].size;
        let mut place: usize = 0;
        while place < order.len() && stats[order[place]].size >= size
            invariant
                stats@.len() == S_MAX,
                k < S_MAX,
                order@.len() == k,
                forall|i: int| #![trigger order@[i]] 0 <= i < k ==> order@[i] < k,
                0 <= place <= k,
                forall|i: int| 0 <= i < place ==> stats@[#[trigger] order@[i] as int].size >= size,
            decreases k - place,
        {
            place = place + 1;
        }
        let ghost before = order@;
        order.insert(place, k);
        proof {
            assert forall|i: int| #![trigger order@[i]] 0 <= i < k + 1 implies order@[i] < k + 1 by {
                if i < place {
                    assert(order@[i] == before[i]);
                } else if i > place {
                    assert(order@[i] == before[i - 1]);
                }
            }
            assert forall|i: int, j: int|
                #![trigger order@[i], order@[j]]
                0 <= i < j < k + 1 implies stats@[order@[i] as int].size > stats@[order@[j] as int].size || (
                stats@[order@[i] as int].size == stats@[order@[j] as int].size && order@[i] < order@[j]) by {
                if j < place {
                    assert(order@[i] == before[i] && order@[j] == before[j]);
                } else if j == place {
                    assert(order@[i] == before[i]);
                    assert(stats@[before[i] as int].size >= size);
                } else if i > place {
                    assert(order@[i] == before[i - 1] && order@[j] == before[j - 1]);
                } else if i == place {
                    assert(order@[j] == before[j - 1]);
                    if place < k {
                        assert(!(stats@[before[place as int] as int].size >= size));
                        if j - 1 > place {
                            assert(stats@[before[place as int] as int].size >= stats@[before[j - 1] as int].size);
                        }
                    }
                } else {
                    assert(order@[i] == before[i] && order@[j] == before[j - 1]);
                }
            }
        }
        k = k + 1;
    }
    order
}

/// A count in few characters: as it is below a thousand, else in
/// thousands with a `K`, else in millions with an `M`, rounded down.
pub open spec fn count_text(count: nat) -> Seq<char> {
    if count < 1000 {
        decimal(count)
    } else if count < 1000 * 1000 {
        decimal(count / 1000).push('K')
    } else {
        decimal(count / (1000 * 1000)).push('M')
    }
}

pub fn format_count(count: usize) -> (text: String)
    ensures
        text@ == count_text(count as nat),
{
    let mut text = String::new();
    proof {
        reveal_strlit("K");
        reveal_strlit("M");
    }
    if count < 1000 {
        push_decimal(&mut text, count as u64);
    } else if count < 1000 * 1000 {
        push_decimal(&mut text, (count / 1000) as u64);
        text.append("K");
    } else {
        push_decimal(&mut text, (count / (1000 * 1000)) as u64);
        text.append("M");
    }
    proof {
        assert(text@ =~= count_text(count as nat));
    }
    text
}

} // verus!
