//! The first pass of lowering a recording's time resolution: which events
//! carry a time, and the range of times the events cover.

use vstd::prelude::*;
use crate::timestamp::Timestamp;
use crate::event::{Event, AllocBody};
use ahash::AHashMap;
use crate::loader::{widen, earlier_of, later_of};
use crate::squeeze::{SqueezeState, SqueezeStats, Squeezer, stats_seen, stats_merged_in, seen_stats};
use crate::index_maps::{
    stats_by_backtrace, stats_by_backtrace_new, stats_by_backtrace_entries, allocation_records_entries, stats_by_backtrace_remove,
    stats_by_backtrace_is_empty, stats_by_backtrace_none, stats_by_backtrace_get, stats_by_backtrace_insert,
    allocation_records, allocation_records_new, allocation_records_get, allocation_records_insert,
    allocation_records_remove, number_positions, number_positions_new, number_positions_get, number_positions_insert,
    number_positions_none, thread_address_lists_none, address_list_positions_none,
};

verus! {

/// The time an event carries, if it carries one.
pub open spec fn timestamp_of(event: Event) -> Option<Timestamp> {
    match event {
        Event::Alloc { timestamp, .. } => Some(timestamp),
        Event::Realloc { timestamp, .. } => Some(timestamp),
        Event::Free { timestamp, .. } => Some(timestamp),
        Event::File { timestamp, .. } => Some(timestamp),
        Event::MemoryMap { timestamp, .. } => Some(timestamp),
        Event::MemoryUnmap { timestamp, .. } => Some(timestamp),
        Event::Mallopt { timestamp, .. } => Some(timestamp),
        Event::WallClock { timestamp, .. } => Some(timestamp),
        _ => None,
    }
}

pub fn get_timestamp(event: &Event) -> (timestamp: Option<Timestamp>)
    ensures
        timestamp == timestamp_of(*event),
{
    match event {
        Event::Alloc { timestamp, .. } | Event::Realloc { timestamp, .. } | Event::Free { timestamp, .. }
        | Event::File { timestamp, .. } | Event::MemoryMap { timestamp, .. } | Event::MemoryUnmap {
            timestamp,
            ..
        } | Event::Mallopt { timestamp, .. } | Event::WallClock { timestamp, .. } => Some(*timestamp),
        _ => None,
    }
}

/// The earlier of a time seen so far, if any, and another.
pub open spec fn lower_of(seen: Option<Timestamp>, t: Timestamp) -> Option<Timestamp> {
    match seen {
        Some(s) => if t.0 < s.0 { Some(t) } else { Some(s) },
        None => Some(t),
    }
}

/// The later of a time seen so far, if any, and another.
pub open spec fn upper_of(seen: Option<Timestamp>, t: Timestamp) -> Option<Timestamp> {
    match seen {
        Some(s) => if t.0 > s.0 { Some(t) } else { Some(s) },
        None => Some(t),
    }
}

/// The earliest and latest time seen once an event was seen: an event's
/// own time, or the first and last allocation that a summary of a
/// backtrace's allocations gives.
pub open spec fn widened(range: (Option<Timestamp>, Option<Timestamp>), event: Event) -> (Option<Timestamp>, Option<Timestamp>) {
    match event {
        Event::GroupStatistics { first_allocation, last_allocation, .. } => (
            lower_of(range.0, first_allocation),
            upper_of(range.1, last_allocation),
        ),
        _ => match timestamp_of(event) {
            Some(t) => (lower_of(range.0, t), upper_of(range.1, t)),
            None => range,
        },
    }
}

/// The time an event records when it happened: allocations,
/// reallocations and deallocations, files, maps and unmaps of memory,
/// calls of `mallopt` and readings of the wall clock each carry one.
pub open spec fn event_time(event: Event) -> Option<Timestamp> {
    if let Event::Alloc { timestamp: made, .. } = event {
        Some(made)
    } else if let Event::Realloc { timestamp: moved, .. } = event {
        Some(moved)
    } else if let Event::Free { timestamp: freed, .. } = event {
        Some(freed)
    } else if let Event::File { timestamp: read, .. } = event {
        Some(read)
    } else if let Event::MemoryMap { timestamp: mapped, .. } = event {
        Some(mapped)
    } else if let Event::MemoryUnmap { timestamp: unmapped, .. } = event {
        Some(unmapped)
    } else if let Event::Mallopt { timestamp: called, .. } = event {
        Some(called)
    } else if let Event::WallClock { timestamp: ticked, .. } = event {
        Some(ticked)
    } else {
        None
    }
}

/// Every allocation, reallocation and deallocation, and every other event
/// that records when it happened, is seen at its own time, and once it is
/// seen the range of times reaches it: the range starts no later and ends
/// no earlier than that time, and what the range held before stays within
/// it. An event that records no time, other than a summary of a
/// backtrace's allocations, leaves the range as it was.
pub proof fn lemma_timed_events_widen_the_range(range: (Option<Timestamp>, Option<Timestamp>), event: Event)
    ensures
        timestamp_of(event) == event_time(event),
        event_time(event) is None && !(event is GroupStatistics) ==> widened(range, event) == range,
        event_time(event) is Some ==> ({
            let t = event_time(event).unwrap();
            let r = widened(range, event);
            &&& r.0 is Some && r.0.unwrap().0 <= t.0
            &&& r.1 is Some && r.1.unwrap().0 >= t.0
            &&& range.0 matches Some(low) ==> r.0.unwrap().0 <= low.0
            &&& range.1 matches Some(high) ==> r.1.unwrap().0 >= high.0
        }),
{
}

fn lower(seen: Option<Timestamp>, t: Timestamp) -> (r: Option<Timestamp>)
    ensures
        r == lower_of(seen, t),
{
    match seen {
        Some(s) => if t.0 < s.0 { Some(t) } else { Some(s) },
        None => Some(t),
    }
}

fn upper(seen: Option<Timestamp>, t: Timestamp) -> (r: Option<Timestamp>)
    ensures
        r == upper_of(seen, t),
{
    match seen {
        Some(s) => if t.0 > s.0 { Some(t) } else { Some(s) },
        None => Some(t),
    }
}

/// Widens the range of times seen so far by an event.
pub fn widen_range(range: (Option<Timestamp>, Option<Timestamp>), event: &Event) -> (r: (Option<Timestamp>, Option<Timestamp>))
    ensures
        r == widened(range, *event),
{
    match event {
        Event::GroupStatistics { first_allocation, last_allocation, .. } => (
            lower(range.0, *first_allocation),
            upper(range.1, *last_allocation),
        ),
        _ => match get_timestamp(event) {
            Some(t) => (lower(range.0, t), upper(range.1, t)),
            None => range,
        },
    }
}

/// The range of times once all events were seen: where no event carried a
/// time, from the earliest to the latest time there is.
pub fn timestamp_bounds(range: (Option<Timestamp>, Option<Timestamp>)) -> (bounds: (Timestamp, Timestamp))
    ensures
        bounds.0 == (match range.0 {
            Some(t) => t,
            None => Timestamp(0),
        }),
        bounds.1 == (match range.1 {
            Some(t) => t,
            None => Timestamp(u64::MAX),
        }),
{
    let min = match range.0 {
        Some(t) => t,
        None => Timestamp::min(),
    };
    let max = match range.1 {
        Some(t) => t,
        None => Timestamp::max(),
    };
    (min, max)
}


/// One backtrace's share of a bucket of time: the bytes it holds now, and
/// the most it held within the bucket.
pub type BucketEntry = (u64, u64, u64);

/// Where the lowering of resolution stands after some events: how
/// backtraces are resolved, each backtrace's statistics, the allocations
/// alive by pointer (their counter, backtrace and usable size), the bytes
/// alive from each backtrace, the bucket being filled and those closed,
/// and where the next bucket starts.
pub struct ResolutionState {
    pub backtraces: SqueezeState,
    pub remapping: bool,
    pub stats: Map<u64, SqueezeStats>,
    pub records: Map<u64, (u64, u64, u64)>,
    pub live: Map<u64, u64>,
    pub counter: u64,
    pub current: Seq<BucketEntry>,
    pub buckets: Seq<Seq<BucketEntry>>,
    pub next_bucket: u64,
    pub step: u64,
}

/// The place of the first entry of `backtrace` in a bucket.
pub open spec fn entry_index(entries: Seq<BucketEntry>, backtrace: u64) -> Option<nat>
    decreases entries.len(),
{
    if entries.len() == 0 {
        None
    } else {
        match entry_index(entries.drop_last(), backtrace) {
            Some(i) => Some(i),
            None => if entries.last().0 == backtrace {
                Some((entries.len() - 1) as nat)
            } else {
                None
            },
        }
    }
}

/// A bucket once `amount` bytes came from `backtrace`; `None` where its
/// count outgrows 64 bits.
pub open spec fn bucket_added(entries: Seq<BucketEntry>, backtrace: u64, amount: u64) -> Option<Seq<BucketEntry>> {
    match entry_index(entries, backtrace) {
        Some(i) => {
            let e = entries[i as int];
            if e.1 + amount > u64::MAX {
                None
            } else {
                let now = (e.1 + amount) as u64;
                Some(entries.update(i as int, (e.0, now, if now > e.2 { now } else { e.2 })))
            }
        },
        None => Some(entries.push((backtrace, amount, amount))),
    }
}

/// A bucket once `amount` bytes of `backtrace` went; `None` where more go
/// than it holds.
pub open spec fn bucket_taken(entries: Seq<BucketEntry>, backtrace: u64, amount: u64) -> Option<Seq<BucketEntry>> {
    match entry_index(entries, backtrace) {
        Some(i) => {
            let e = entries[i as int];
            if e.1 < amount {
                None
            } else {
                Some(entries.update(i as int, (e.0, (e.1 - amount) as u64, e.2)))
            }
        },
        None => if amount == 0 {
            Some(entries.push((backtrace, 0, 0)))
        } else {
            None
        },
    }
}

/// A bucket as the next one starts: each backtrace's most is what it holds.
pub open spec fn bucket_restarted(entries: Seq<BucketEntry>) -> Seq<BucketEntry> {
    entries.map_values(|e: BucketEntry| (e.0, e.1, e.1))
}

/// The bytes alive from `backtrace`.
pub open spec fn live_of(live: Map<u64, u64>, backtrace: u64) -> u64 {
    if live.contains_key(backtrace) {
        live[backtrace]
    } else {
        0
    }
}

/// The bytes alive once `amount` more came from `backtrace`.
pub open spec fn live_added(live: Map<u64, u64>, backtrace: u64, amount: u64) -> Option<Map<u64, u64>> {
    if live_of(live, backtrace) + amount > u64::MAX {
        None
    } else {
        Some(live.insert(backtrace, (live_of(live, backtrace) + amount) as u64))
    }
}

/// The bytes alive once `amount` of `backtrace` went.
pub open spec fn live_taken(live: Map<u64, u64>, backtrace: u64, amount: u64) -> Option<Map<u64, u64>> {
    if live_of(live, backtrace) < amount {
        None
    } else {
        Some(live.insert(backtrace, (live_of(live, backtrace) - amount) as u64))
    }
}

impl ResolutionState {
    /// The backtrace that `backtrace` stands for: itself until a backtrace
    /// was announced, then the one it was announced as.
    pub open spec fn resolved(self, backtrace: u64) -> Option<u64> {
        if !self.remapping {
            Some(backtrace)
        } else if self.backtraces.backtrace_map.contains_key(backtrace) {
            Some(self.backtraces.backtrace_map[backtrace])
        } else {
            None
        }
    }

    /// The state once an event of time `timestamp` is seen: where that time
    /// reaches the next bucket, the bucket being filled is closed.
    pub open spec fn timed(self, event: Event) -> Option<ResolutionState> {
        match timestamp_of(event) {
            Some(t) => if t.0 >= self.next_bucket {
                if self.next_bucket + self.step > u64::MAX {
                    None
                } else {
                    Some(ResolutionState {
                        buckets: self.buckets.push(self.current),
                        next_bucket: (self.next_bucket + self.step) as u64,
                        current: bucket_restarted(self.current),
                        ..self
                    })
                }
            } else {
                Some(self)
            },
            None => Some(self),
        }
    }

    /// The statistics once an allocation of `usable` bytes was seen from
    /// `backtrace` at `timestamp`: its bytes count towards those freed
    /// until the end shows it alive.
    pub open spec fn stats_with(self, backtrace: u64, timestamp: Timestamp, usable: u64) -> Option<Map<u64, SqueezeStats>> {
        let seen = stats_seen(self.stats, backtrace, timestamp, usable);
        if seen.free_size + usable > u64::MAX {
            None
        } else {
            Some(self.stats.insert(backtrace, SqueezeStats { free_size: (seen.free_size + usable) as u64, ..seen }))
        }
    }

    /// The statistics once an allocation of `backtrace` went.
    pub open spec fn stats_freed(stats: Map<u64, SqueezeStats>, backtrace: u64) -> Option<Map<u64, SqueezeStats>> {
        if !stats.contains_key(backtrace) {
            Some(stats)
        } else if stats[backtrace].free_count == u64::MAX {
            None
        } else {
            Some(stats.insert(backtrace, SqueezeStats { free_count: (stats[backtrace].free_count + 1) as u64, ..stats[backtrace] }))
        }
    }

    /// The state once the allocation at `pointer`, if any, went, with
    /// `amount` bytes taken from its backtrace's bucket entry.
    pub open spec fn released(self, pointer: u64, amount: Option<u64>) -> Option<ResolutionState> {
        if !self.records.contains_key(pointer) {
            Some(self)
        } else {
            let r = self.records[pointer];
            let taken = match amount {
                Some(a) => a,
                None => r.2,
            };
            match (live_taken(self.live, r.1, r.2), bucket_taken(self.current, r.1, taken), ResolutionState::stats_freed(self.stats, r.1)) {
                (Some(live), Some(current), Some(stats)) => Some(ResolutionState {
                    records: self.records.remove(pointer),
                    live,
                    current,
                    stats,
                    ..self
                }),
                _ => None,
            }
        }
    }

    /// The state once an allocation of `usable` bytes from `backtrace` is
    /// alive at `pointer`, in place of any there.
    pub open spec fn recorded(self, pointer: u64, backtrace: u64, usable: u64) -> Option<ResolutionState> {
        let live = if self.records.contains_key(pointer) {
            live_taken(self.live, self.records[pointer].1, self.records[pointer].2)
        } else {
            Some(self.live)
        };
        match live {
            Some(live) => match (live_added(live, backtrace, usable), bucket_added(self.current, backtrace, usable)) {
                (Some(live), Some(current)) => if self.counter == u64::MAX {
                    None
                } else {
                    Some(ResolutionState {
                        records: self.records.insert(pointer, (self.counter, backtrace, usable)),
                        live,
                        current,
                        counter: (self.counter + 1) as u64,
                        ..self
                    })
                },
                _ => None,
            },
            None => None,
        }
    }

    /// The state once an allocation or reallocation was seen, with
    /// `old_pointer` the pointer it replaces, if any.
    pub open spec fn allocated(self, timestamp: Timestamp, allocation: AllocBody, old_pointer: Option<u64>) -> Option<ResolutionState> {
        if allocation.size + allocation.extra_usable_space > u64::MAX {
            None
        } else {
            let usable = (allocation.size + allocation.extra_usable_space) as u64;
            match self.resolved(allocation.backtrace) {
                Some(b) => match self.stats_with(b, timestamp, usable) {
                    Some(stats) => {
                        let s1 = ResolutionState { stats, ..self };
                        let s2 = match old_pointer {
                            Some(p) => s1.released(p, Some(usable)),
                            None => Some(s1),
                        };
                        match s2 {
                            Some(s2) => s2.recorded(allocation.pointer, b, usable),
                            None => None,
                        }
                    },
                    None => None,
                },
                None => None,
            }
        }
    }

    /// The state once an event was seen, after the bucket it falls in was
    /// reached; `None` where a count outgrows 64 bits, more bytes go than
    /// a bucket holds, or a backtrace was not announced.
    pub open spec fn stepped(self, event: Event) -> Option<ResolutionState> {
        match event {
            Event::Backtrace { id, addresses } => Some(
                ResolutionState { backtraces: self.backtraces.after_backtrace(id, addresses@), remapping: true, ..self },
            ),
            Event::PartialBacktrace { id, thread, frames_invalidated, addresses } => Some(
                ResolutionState {
                    backtraces: self.backtraces.after_partial_backtrace(id, thread, frames_invalidated, addresses@),
                    remapping: true,
                    ..self
                },
            ),
            Event::PartialBacktrace32 { id, thread, frames_invalidated, addresses } => Some(
                ResolutionState {
                    backtraces: self.backtraces.after_partial_backtrace(
                        id,
                        thread,
                        frames_invalidated,
                        crate::loader::widened(addresses@),
                    ),
                    remapping: true,
                    ..self
                },
            ),
            Event::Alloc { timestamp, allocation } => self.allocated(timestamp, allocation, None),
            Event::Realloc { timestamp, old_pointer, allocation } => self.allocated(
                timestamp,
                allocation,
                Some(old_pointer),
            ),
            Event::Free { pointer, .. } => self.released(pointer, None),
            Event::MemoryMap { backtrace, length, .. } => match self.resolved(backtrace) {
                Some(b) => match bucket_added(self.current, b, length) {
                    Some(current) => Some(ResolutionState { current, ..self }),
                    None => None,
                },
                None => None,
            },
            Event::MemoryUnmap { backtrace, length, .. } => match self.resolved(backtrace) {
                Some(b) => match bucket_taken(self.current, b, length) {
                    Some(current) => Some(ResolutionState { current, ..self }),
                    None => None,
                },
                None => None,
            },
            Event::Mallopt { backtrace, .. } => match self.resolved(backtrace) {
                Some(_) => Some(self),
                None => None,
            },
            Event::GroupStatistics {
                backtrace,
                first_allocation,
                last_allocation,
                free_count,
                free_size,
                min_size,
                max_size,
            } => match self.resolved(backtrace) {
                Some(b) => {
                    let base = if self.stats.contains_key(b) {
                        self.stats[b]
                    } else {
                        SqueezeStats { first_allocation, last_allocation, free_count: 0, free_size: 0, min_size, max_size }
                    };
                    if base.free_count + free_count > u64::MAX || base.free_size + free_size > u64::MAX {
                        None
                    } else {
                        Some(ResolutionState {
                            stats: self.stats.insert(
                                b,
                                stats_merged_in(
                                    self.stats,
                                    b,
                                    first_allocation,
                                    last_allocation,
                                    free_count,
                                    free_size,
                                    min_size,
                                    max_size,
                                ),
                            ),
                            ..self
                        })
                    }
                },
                None => None,
            },
            _ => Some(self),
        }
    }

    /// The state once an event was seen.
    pub open spec fn next(self, event: Event) -> Option<ResolutionState> {
        match self.timed(event) {
            Some(s) => s.stepped(event),
            None => None,
        }
    }

    /// Whether `out` is what is written for an event: backtraces first seen
    /// (partial ones in full), allocations and reallocations as allocations,
    /// and maps, unmaps and options, each with the backtrace it stands for;
    /// deallocations and summaries are not written; the rest is written as
    /// it is.
    pub open spec fn written(self, event: Event, out: Seq<Event>) -> bool {
        match event {
            Event::Backtrace { id, addresses } => out == (if self.backtraces.cached_id(id, addresses@) == id {
                seq![event]
            } else {
                Seq::empty()
            }),
            Event::PartialBacktrace { id, thread, frames_invalidated, addresses } => {
                let full = self.backtraces.expanded_for(thread, frames_invalidated, addresses@);
                if self.backtraces.cached_id(id, full) == id {
                    &&& out.len() == 1
                    &&& out[0] is Backtrace
                    &&& out[0]->Backtrace_id == id
                    &&& out[0]->Backtrace_addresses@ == full
                } else {
                    out.len() == 0
                }
            },
            Event::PartialBacktrace32 { id, thread, frames_invalidated, addresses } => {
                let full = self.backtraces.expanded_for(thread, frames_invalidated, crate::loader::widened(addresses@));
                if self.backtraces.cached_id(id, full) == id {
                    &&& out.len() == 1
                    &&& out[0] is Backtrace
                    &&& out[0]->Backtrace_id == id
                    &&& out[0]->Backtrace_addresses@ == full
                } else {
                    out.len() == 0
                }
            },
            Event::Alloc { timestamp, allocation } => out == seq![
                Event::Alloc {
                    timestamp,
                    allocation: AllocBody { backtrace: self.resolved(allocation.backtrace).unwrap(), ..allocation },
                },
            ],
            Event::Realloc { timestamp, allocation, .. } => out == seq![
                Event::Alloc {
                    timestamp,
                    allocation: AllocBody { backtrace: self.resolved(allocation.backtrace).unwrap(), ..allocation },
                },
            ],
            Event::Free { .. } => out.len() == 0,
            Event::GroupStatistics { .. } => out.len() == 0,
            Event::MemoryMap {
                timestamp,
                pointer,
                length,
                backtrace,
                requested_address,
                mmap_protection,
                mmap_flags,
                file_descriptor,
                thread,
                offset,
            } => out == seq![
                Event::MemoryMap {
                    timestamp,
                    pointer,
                    length,
                    backtrace: self.resolved(backtrace).unwrap(),
                    requested_address,
                    mmap_protection,
                    mmap_flags,
                    file_descriptor,
                    thread,
                    offset,
                },
            ],
            Event::MemoryUnmap { timestamp, pointer, length, backtrace, thread } => out == seq![
                Event::MemoryUnmap { timestamp, pointer, length, backtrace: self.resolved(backtrace).unwrap(), thread },
            ],
            Event::Mallopt { timestamp, backtrace, thread, param, value, result } => out == seq![
                Event::Mallopt {
                    timestamp,
                    backtrace: self.resolved(backtrace).unwrap(),
                    thread,
                    param,
                    value,
                    result,
                },
            ],
            _ => out == seq![event],
        }
    }
}

/// The state before any event, with buckets of `step` microseconds from
/// `start` on.
pub open spec fn resolution_start(backtraces: SqueezeState, start: u64, step: u64) -> ResolutionState {
    ResolutionState {
        backtraces,
        remapping: false,
        stats: Map::empty(),
        records: Map::empty(),
        live: Map::empty(),
        counter: 0,
        current: Seq::empty(),
        buckets: Seq::empty(),
        next_bucket: start,
        step,
    }
}


/// The place of the first entry of `backtrace` in a bucket.
fn entry_index_now(entries: &Vec<BucketEntry>, backtrace: u64) -> (index: Option<usize>)
    ensures
        match entry_index(entries@, backtrace) {
            Some(i) => index == Some(i as usize) && i < entries@.len(),
            None => index is None,
        },
{
    proof {
        lemma_entry_index_bound(entries@, backtrace);
    }
    let mut i: usize = 0;
    proof {
        assert(entries@.take(0) =~= Seq::<BucketEntry>::empty());
    }
    while i < entries.len()
        invariant
            0 <= i <= entries@.len(),
            entry_index(entries@.take(i as int), backtrace) is None,
        decreases entries@.len() - i,
    {
        proof {
            assert(entries@.take(i + 1).drop_last() =~= entries@.take(i as int));
        }
        if entries[i].0 == backtrace {
            proof {
                lemma_entry_index_found(entries@, backtrace, i as int);
            }
            return Some(i);
        }
        i = i + 1;
    }
    proof {
        assert(entries@.take(entries@.len() as int) =~= entries@);
    }
    None
}

proof fn lemma_entry_index_bound(entries: Seq<BucketEntry>, backtrace: u64)
    ensures
        entry_index(entries, backtrace) matches Some(i) ==> i < entries.len() && entries[i as int].0 == backtrace,
    decreases entries.len(),
{
    if entries.len() > 0 {
        lemma_entry_index_bound(entries.drop_last(), backtrace);
    }
}

proof fn lemma_entry_index_found(entries: Seq<BucketEntry>, backtrace: u64, i: int)
    requires
        0 <= i < entries.len(),
        entries[i].0 == backtrace,
        entry_index(entries.take(i), backtrace) is None,
    ensures
        entry_index(entries, backtrace) == Some(i as nat),
    decreases entries.len(),
{
    if i < entries.len() - 1 {
        assert(entries.drop_last().take(i) =~= entries.take(i));
        lemma_entry_index_found(entries.drop_last(), backtrace, i);
    } else {
        assert(entries.drop_last() =~= entries.take(i));
    }
}

/// A bucket once `amount` bytes came from `backtrace`.
fn bucket_add(entries: &mut Vec<BucketEntry>, backtrace: u64, amount: u64) -> (ok: bool)
    ensures
        ok == bucket_added(old(entries)@, backtrace, amount) is Some,
        ok ==> final(entries)@ == bucket_added(old(entries)@, backtrace, amount).unwrap(),
{
    proof {
        lemma_entry_index_bound(entries@, backtrace);
    }
    let n = entries.len();
    match entry_index_now(entries, backtrace) {
        Some(i) => {
            proof {
                assert(i < n);
                assert(entry_index(entries@, backtrace) == Some(i as nat));
            }
            let e = entries[i];
            if e.1 > u64::MAX - amount {
                return false;
            }
            let now = e.1 + amount;
            let most = if now > e.2 { now } else { e.2 };
            entries.set(i, (e.0, now, most));
            true
        },
        None => {
            entries.push((backtrace, amount, amount));
            true
        },
    }
}

/// A bucket once `amount` bytes of `backtrace` went.
fn bucket_take(entries: &mut Vec<BucketEntry>, backtrace: u64, amount: u64) -> (ok: bool)
    ensures
        ok == bucket_taken(old(entries)@, backtrace, amount) is Some,
        ok ==> final(entries)@ == bucket_taken(old(entries)@, backtrace, amount).unwrap(),
{
    proof {
        lemma_entry_index_bound(entries@, backtrace);
    }
    let n = entries.len();
    match entry_index_now(entries, backtrace) {
        Some(i) => {
            proof {
                assert(i < n);
                assert(entry_index(entries@, backtrace) == Some(i as nat));
            }
            let e = entries[i];
            if e.1 < amount {
                return false;
            }
            entries.set(i, (e.0, e.1 - amount, e.2));
            true
        },
        None => {
            if amount != 0 {
                return false;
            }
            entries.push((backtrace, 0, 0));
            true
        },
    }
}

/// A bucket as the next one starts.
fn bucket_restart(entries: &Vec<BucketEntry>) -> (restarted: Vec<BucketEntry>)
    ensures
        restarted@ == bucket_restarted(entries@),
{
    let mut restarted: Vec<BucketEntry> = Vec::new();
    let mut i: usize = 0;
    while i < entries.len()
        invariant
            0 <= i <= entries@.len(),
            restarted@ == bucket_restarted(entries@.take(i as int)),
        decreases entries@.len() - i,
    {
        let e = entries[i];
        restarted.push((e.0, e.1, e.1));
        i = i + 1;
        proof {
            assert(restarted@ =~= bucket_restarted(entries@.take(i as int)));
        }
    }
    proof {
        assert(entries@.take(entries@.len() as int) =~= entries@);
    }
    restarted
}

fn live_add(live: &mut AHashMap<u64, u64>, backtrace: u64, amount: u64) -> (ok: bool)
    ensures
        ok == live_added(number_positions(*old(live)), backtrace, amount) is Some,
        ok ==> number_positions(*final(live)) == live_added(number_positions(*old(live)), backtrace, amount).unwrap(),
{
    let have = match number_positions_get(live, backtrace) {
        Some(v) => v,
        None => 0,
    };
    if have > u64::MAX - amount {
        return false;
    }
    number_positions_insert(live, backtrace, have + amount);
    true
}

fn live_take(live: &mut AHashMap<u64, u64>, backtrace: u64, amount: u64) -> (ok: bool)
    ensures
        ok == live_taken(number_positions(*old(live)), backtrace, amount) is Some,
        ok ==> number_positions(*final(live)) == live_taken(number_positions(*old(live)), backtrace, amount).unwrap(),
{
    let have = match number_positions_get(live, backtrace) {
        Some(v) => v,
        None => 0,
    };
    if have < amount {
        return false;
    }
    number_positions_insert(live, backtrace, have - amount);
    true
}

/// The backtraces as a fresh squeezing knows them: none yet.
pub open spec fn fresh_backtraces(s: SqueezeState) -> bool {
    &&& s.previous_backtraces == thread_address_lists_none()
    &&& s.backtrace_cache == address_list_positions_none()
    &&& s.backtrace_map == number_positions_none()
}

/// The first pass of lowering a recording's time resolution: it reads the
/// events, writes them back with backtraces resolved and deallocations and
/// summaries left out, and gathers how many bytes each backtrace held in
/// each bucket of time.
pub struct ResolutionSqueezer {
    backtraces: Squeezer,
    remapping: bool,
    stats: AHashMap<u64, SqueezeStats>,
    records: AHashMap<u64, (u64, u64, u64)>,
    live: AHashMap<u64, u64>,
    counter: u64,
    current: Vec<BucketEntry>,
    buckets: Vec<Vec<BucketEntry>>,
    next_bucket: u64,
    step: u64,
}

impl View for ResolutionSqueezer {
    type V = ResolutionState;

    closed spec fn view(&self) -> ResolutionState {
        ResolutionState {
            backtraces: self.backtraces@,
            remapping: self.remapping,
            stats: stats_by_backtrace(self.stats),
            records: allocation_records(self.records),
            live: number_positions(self.live),
            counter: self.counter,
            current: self.current@,
            buckets: self.buckets@.map_values(|b: Vec<BucketEntry>| b@),
            next_bucket: self.next_bucket,
            step: self.step,
        }
    }
}

impl ResolutionSqueezer {
    pub closed spec fn wf(&self) -> bool {
        self.backtraces.wf()
    }

    /// A first pass with buckets of `step` from `start` on.
    pub fn new(start: Timestamp, step: Timestamp) -> (squeezer: ResolutionSqueezer)
        ensures
            squeezer.wf(),
            fresh_backtraces(squeezer@.backtraces),
            squeezer@ == resolution_start(squeezer@.backtraces, start.0, step.0),
    {
        let squeezer = ResolutionSqueezer {
            backtraces: Squeezer::new(None),
            remapping: false,
            stats: stats_by_backtrace_new(),
            records: allocation_records_new(),
            live: number_positions_new(),
            counter: 0,
            current: Vec::new(),
            buckets: Vec::new(),
            next_bucket: start.0,
            step: step.0,
        };
        proof {
            assert(squeezer@.buckets =~= Seq::<Seq<BucketEntry>>::empty());
            assert(squeezer@.records =~= Map::<u64, (u64, u64, u64)>::empty());
            assert(squeezer@ =~= resolution_start(squeezer@.backtraces, start.0, step.0));
        }
        squeezer
    }

    fn resolve(&self, backtrace: u64) -> (r: Option<u64>)
        ensures
            r == self@.resolved(backtrace),
    {
        if !self.remapping {
            Some(backtrace)
        } else {
            self.backtraces.lookup_backtrace(backtrace)
        }
    }

    fn time(&mut self, event: &Event) -> (ok: bool)
        requires
            old(self).wf(),
        ensures
            final(self).wf(),
            ok == old(self)@.timed(*event) is Some,
            ok ==> final(self)@ == old(self)@.timed(*event).unwrap(),
    {
        match get_timestamp(event) {
            Some(t) => {
                if t.0 >= self.next_bucket {
                    if self.next_bucket > u64::MAX - self.step {
                        return false;
                    }
                    let mut closed = bucket_restart(&self.current);
                    std::mem::swap(&mut closed, &mut self.current);
                    let ghost before = self.buckets@;
                    self.buckets.push(closed);
                    self.next_bucket = self.next_bucket + self.step;
                    proof {
                        assert(self@.buckets =~= old(self)@.buckets.push(old(self)@.current));
                        assert(self@ =~= old(self)@.timed(*event).unwrap());
                    }
                }
                true
            },
            None => true,
        }
    }

    fn release(&mut self, pointer: u64, amount: Option<u64>) -> (ok: bool)
        requires
            old(self).wf(),
        ensures
            final(self).wf(),
            ok == old(self)@.released(pointer, amount) is Some,
            ok ==> final(self)@ == old(self)@.released(pointer, amount).unwrap(),
    {
        let record = match allocation_records_get(&self.records, pointer) {
            Some(r) => r,
            None => return true,
        };
        let taken = match amount {
            Some(a) => a,
            None => record.2,
        };
        let ghost s = self@;
        if !live_take(&mut self.live, record.1, record.2) {
            return false;
        }
        if !bucket_take(&mut self.current, record.1, taken) {
            return false;
        }
        match stats_by_backtrace_get(&self.stats, record.1) {
            Some(stats) => {
                if stats.free_count == u64::MAX {
                    return false;
                }
                stats_by_backtrace_insert(
                    &mut self.stats,
                    record.1,
                    SqueezeStats { free_count: stats.free_count + 1, ..stats },
                );
            },
            None => {},
        }
        allocation_records_remove(&mut self.records, pointer);
        proof {
            assert(self@ =~= s.released(pointer, amount).unwrap());
        }
        true
    }

    fn record(&mut self, pointer: u64, backtrace: u64, usable: u64) -> (ok: bool)
        requires
            old(self).wf(),
        ensures
            final(self).wf(),
            ok == old(self)@.recorded(pointer, backtrace, usable) is Some,
            ok ==> final(self)@ == old(self)@.recorded(pointer, backtrace, usable).unwrap(),
    {
        let ghost s = self@;
        match allocation_records_get(&self.records, pointer) {
            Some(previous) => {
                if !live_take(&mut self.live, previous.1, previous.2) {
                    return false;
                }
            },
            None => {},
        }
        if !live_add(&mut self.live, backtrace, usable) {
            return false;
        }
        if !bucket_add(&mut self.current, backtrace, usable) {
            return false;
        }
        if self.counter == u64::MAX {
            return false;
        }
        allocation_records_insert(&mut self.records, pointer, (self.counter, backtrace, usable));
        self.counter = self.counter + 1;
        proof {
            assert(self@ =~= s.recorded(pointer, backtrace, usable).unwrap());
        }
        true
    }

    fn allocate(&mut self, timestamp: Timestamp, allocation: AllocBody, old_pointer: Option<u64>) -> (remapped: Option<AllocBody>)
        requires
            old(self).wf(),
        ensures
            final(self).wf(),
            remapped is Some == old(self)@.allocated(timestamp, allocation, old_pointer) is Some,
            remapped is Some ==> final(self)@ == old(self)@.allocated(timestamp, allocation, old_pointer).unwrap()
                && remapped.unwrap() == (AllocBody {
                backtrace: old(self)@.resolved(allocation.backtrace).unwrap(),
                ..allocation
            }),
    {
        if allocation.size > u64::MAX - allocation.extra_usable_space as u64 {
            return None;
        }
        let usable = allocation.size + allocation.extra_usable_space as u64;
        let b = match self.resolve(allocation.backtrace) {
            Some(b) => b,
            None => return None,
        };
        let base = stats_by_backtrace_get(&self.stats, b);
        let seen = seen_stats(base, timestamp, usable);
        if seen.free_size > u64::MAX - usable {
            return None;
        }
        stats_by_backtrace_insert(&mut self.stats, b, SqueezeStats { free_size: seen.free_size + usable, ..seen });
        let ghost s1 = self@;
        proof {
            assert(s1 =~= (ResolutionState { stats: old(self)@.stats_with(b, timestamp, usable).unwrap(), ..old(self)@ }));
        }
        match old_pointer {
            Some(p) => {
                if !self.release(p, Some(usable)) {
                    return None;
                }
            },
            None => {},
        }
        if !self.record(allocation.pointer, b, usable) {
            return None;
        }
        Some(AllocBody { backtrace: b, ..allocation })
    }
}


impl ResolutionSqueezer {
    fn merge_statistics(
        &mut self,
        backtrace: u64,
        first_allocation: Timestamp,
        last_allocation: Timestamp,
        free_count: u64,
        free_size: u64,
        min_size: u64,
        max_size: u64,
    ) -> (ok: bool)
        requires
            old(self).wf(),
        ensures
            final(self).wf(),
            ok == old(self)@.stepped(
                Event::GroupStatistics {
                    backtrace,
                    first_allocation,
                    last_allocation,
                    free_count,
                    free_size,
                    min_size,
                    max_size,
                },
            ) is Some,
            ok ==> final(self)@ == old(self)@.stepped(
                Event::GroupStatistics {
                    backtrace,
                    first_allocation,
                    last_allocation,
                    free_count,
                    free_size,
                    min_size,
                    max_size,
                },
            ).unwrap(),
    {
        let b = match self.resolve(backtrace) {
            Some(b) => b,
            None => return false,
        };
        let base = match stats_by_backtrace_get(&self.stats, b) {
            Some(s) => s,
            None => SqueezeStats { first_allocation, last_allocation, free_count: 0, free_size: 0, min_size, max_size },
        };
        if base.free_count > u64::MAX - free_count || base.free_size > u64::MAX - free_size {
            return false;
        }
        let merged = SqueezeStats {
            first_allocation: earlier_of(base.first_allocation, first_allocation),
            last_allocation: later_of(base.last_allocation, last_allocation),
            free_count: base.free_count + free_count,
            free_size: base.free_size + free_size,
            min_size: if base.min_size <= min_size { base.min_size } else { min_size },
            max_size: if base.max_size >= max_size { base.max_size } else { max_size },
        };
        stats_by_backtrace_insert(&mut self.stats, b, merged);
        proof {
            assert(merged == stats_merged_in(
                old(self)@.stats,
                b,
                first_allocation,
                last_allocation,
                free_count,
                free_size,
                min_size,
                max_size,
            ));
        }
        true
    }

    /// Takes an event in: the events to write for it, or `None` where a
    /// count outgrows 64 bits, more bytes go than a bucket holds, or a
    /// backtrace was not announced.
    pub fn process(&mut self, event: Event) -> (out: Option<Vec<Event>>)
        requires
            old(self).wf(),
        ensures
            final(self).wf(),
            out is Some == old(self)@.next(event) is Some,
            out matches Some(o) ==> final(self)@ == old(self)@.next(event).unwrap() && old(self)@.written(event, o@),
    {
        let ghost start = self@;
        let ghost received = event;
        if !self.time(&event) {
            return None;
        }
        let ghost timed = self@;
        proof {
            assert(timed.backtraces == start.backtraces);
            assert(timed.remapping == start.remapping);
        }
        match event {
            Event::Backtrace { id, addresses } => {
                let is_new = self.backtraces.see_backtrace(id, &addresses);
                self.remapping = true;
                let mut out: Vec<Event> = Vec::new();
                if is_new {
                    out.push(Event::Backtrace { id, addresses });
                }
                proof {
                    assert(self@ =~= timed.stepped(received).unwrap());
                    if is_new {
                        assert(out@ =~= seq![received]);
                    } else {
                        assert(out@ =~= Seq::<Event>::empty());
                    }
                }
                Some(out)
            },
            Event::PartialBacktrace { id, thread, frames_invalidated, addresses } => {
                let (full, is_new) = self.backtraces.see_partial_backtrace(id, thread, frames_invalidated, &addresses);
                self.remapping = true;
                let mut out: Vec<Event> = Vec::new();
                if is_new {
                    out.push(Event::Backtrace { id, addresses: full });
                }
                proof {
                    assert(self@ =~= timed.stepped(received).unwrap());
                }
                Some(out)
            },
            Event::PartialBacktrace32 { id, thread, frames_invalidated, addresses } => {
                let wide = widen(&addresses);
                let (full, is_new) = self.backtraces.see_partial_backtrace(id, thread, frames_invalidated, &wide);
                self.remapping = true;
                let mut out: Vec<Event> = Vec::new();
                if is_new {
                    out.push(Event::Backtrace { id, addresses: full });
                }
                proof {
                    assert(self@ =~= timed.stepped(received).unwrap());
                }
                Some(out)
            },
            Event::Alloc { timestamp, allocation } => {
                match self.allocate(timestamp, allocation, None) {
                    Some(remapped) => {
                        let out = vec![Event::Alloc { timestamp, allocation: remapped }];
                        proof {
                            assert(out@ =~= seq![Event::Alloc { timestamp, allocation: remapped }]);
                        }
                        Some(out)
                    },
                    None => None,
                }
            },
            Event::Realloc { timestamp, old_pointer, allocation } => {
                match self.allocate(timestamp, allocation, Some(old_pointer)) {
                    Some(remapped) => {
                        let out = vec![Event::Alloc { timestamp, allocation: remapped }];
                        proof {
                            assert(out@ =~= seq![Event::Alloc { timestamp, allocation: remapped }]);
                        }
                        Some(out)
                    },
                    None => None,
                }
            },
            Event::Free { pointer, .. } => {
                if self.release(pointer, None) {
                    Some(Vec::new())
                } else {
                    None
                }
            },
            Event::MemoryMap {
                timestamp,
                pointer,
                length,
                backtrace,
                requested_address,
                mmap_protection,
                mmap_flags,
                file_descriptor,
                thread,
                offset,
            } => {
                let b = match self.resolve(backtrace) {
                    Some(b) => b,
                    None => return None,
                };
                if !bucket_add(&mut self.current, b, length) {
                    return None;
                }
                let out = vec![
                    Event::MemoryMap {
                        timestamp,
                        pointer,
                        length,
                        backtrace: b,
                        requested_address,
                        mmap_protection,
                        mmap_flags,
                        file_descriptor,
                        thread,
                        offset,
                    },
                ];
                proof {
                    assert(self@ =~= timed.stepped(received).unwrap());
                    assert(out@ =~= seq![out@[0]]);
                }
                Some(out)
            },
            Event::MemoryUnmap { timestamp, pointer, length, backtrace, thread } => {
                let b = match self.resolve(backtrace) {
                    Some(b) => b,
                    None => return None,
                };
                if !bucket_take(&mut self.current, b, length) {
                    return None;
                }
                let out = vec![Event::MemoryUnmap { timestamp, pointer, length, backtrace: b, thread }];
                proof {
                    assert(self@ =~= timed.stepped(received).unwrap());
                    assert(out@ =~= seq![out@[0]]);
                }
                Some(out)
            },
            Event::Mallopt { timestamp, backtrace, thread, param, value, result } => {
                let b = match self.resolve(backtrace) {
                    Some(b) => b,
                    None => return None,
                };
                let out = vec![Event::Mallopt { timestamp, backtrace: b, thread, param, value, result }];
                proof {
                    assert(out@ =~= seq![out@[0]]);
                }
                Some(out)
            },
            Event::GroupStatistics {
                backtrace,
                first_allocation,
                last_allocation,
                free_count,
                free_size,
                min_size,
                max_size,
            } => {
                if self.merge_statistics(
                    backtrace,
                    first_allocation,
                    last_allocation,
                    free_count,
                    free_size,
                    min_size,
                    max_size,
                ) {
                    Some(Vec::new())
                } else {
                    None
                }
            },
            _ => {
                let out = vec![event];
                proof {
                    assert(out@ =~= seq![received]);
                }
                Some(out)
            },
        }
    }
}


/// The statistics of each backtrace once the bytes still alive from it are
/// no longer counted as freed.
pub open spec fn settled_stats(stats: Map<u64, SqueezeStats>, live: Map<u64, u64>) -> Map<u64, SqueezeStats> {
    Map::new(
        |b: u64| stats.contains_key(b),
        |b: u64| SqueezeStats { free_size: (stats[b].free_size - live_of(live, b)) as u64, ..stats[b] },
    )
}

/// Whether no backtrace has more bytes alive than it counted as freed.
pub open spec fn settles(stats: Map<u64, SqueezeStats>, live: Map<u64, u64>) -> bool {
    forall|b: u64| stats.contains_key(b) ==> live_of(live, b) <= #[trigger] stats[b].free_size
}

/// What the first pass gathered: each backtrace's statistics, with the
/// bytes alive at the end no longer counted as freed; the buckets of time
/// that were closed, in order; and each allocation alive at the end, by
/// pointer, with its counter.
pub struct ResolutionSummary {
    pub stats: AHashMap<u64, SqueezeStats>,
    pub buckets: Vec<Vec<BucketEntry>>,
    pub live: Vec<(u64, u64)>,
}

impl ResolutionSqueezer {
    /// Ends the first pass: `None` where a backtrace has more bytes alive
    /// than it counted as freed.
    pub fn finish(self) -> (summary: Option<ResolutionSummary>)
        ensures
            summary is Some <==> settles(self@.stats, self@.live),
            summary matches Some(s) ==> {
                &&& stats_by_backtrace(s.stats) == settled_stats(self@.stats, self@.live)
                &&& s.buckets@.map_values(|b: Vec<BucketEntry>| b@) == self@.buckets
                &&& forall|i: int| #![trigger s.live@[i]] 0 <= i < s.live@.len()
                    ==> self@.records.contains_key(s.live@[i].0) && s.live@[i].1 == self@.records[s.live@[i].0].0
                &&& forall|p: u64| self@.records.contains_key(p) ==> exists|i: int|
                    0 <= i < s.live@.len() && #[trigger] s.live@[i].0 == p
                &&& forall|i: int, j: int| 0 <= i < j < s.live@.len() ==> (#[trigger] s.live@[i]).0 != (#[trigger] s.live@[j]).0
            },
    {
        let ghost state = self@;
        let live = self.live;
        let entries = stats_by_backtrace_entries(self.stats);
        let mut settled = stats_by_backtrace_new();
        let mut i: usize = 0;
        while i < entries.len()
            invariant
                state == self@,
                0 <= i <= entries@.len(),
                number_positions(live) == state.live,
                forall|k: int|
                    #![trigger entries@[k]]
                    0 <= k < entries@.len() ==> state.stats.contains_key(entries@[k].0) && entries@[k].1
                        == state.stats[entries@[k].0],
                forall|b: u64| state.stats.contains_key(b) ==> exists|k: int| 0 <= k < entries@.len() && #[trigger] entries@[k].0 == b,
                forall|k: int, j: int| 0 <= k < j < entries@.len() ==> (#[trigger] entries@[k]).0 != (#[trigger] entries@[j]).0,
                forall|k: int| #![trigger entries@[k]] 0 <= k < i ==> live_of(state.live, entries@[k].0) <= entries@[k].1.free_size,
                stats_by_backtrace(settled) == Map::new(
                    |b: u64| exists|k: int| 0 <= k < i && #[trigger] entries@[k].0 == b,
                    |b: u64| SqueezeStats { free_size: (state.stats[b].free_size - live_of(state.live, b)) as u64, ..state.stats[b] },
                ),
            decreases entries@.len() - i,
        {
            let (b, stats) = entries[i];
            proof {
                assert(entries@[i as int].0 == b && entries@[i as int].1 == stats);
            }
            let alive = match number_positions_get(&live, b) {
                Some(v) => v,
                None => 0,
            };
            if alive > stats.free_size {
                proof {
                    assert(state.stats.contains_key(b));
                    assert(live_of(state.live, b) > state.stats[b].free_size);
                    assert(!settles(state.stats, state.live));
                }
                return None;
            }
            stats_by_backtrace_insert(&mut settled, b, SqueezeStats { free_size: stats.free_size - alive, ..stats });
            i = i + 1;
            proof {
                assert(stats_by_backtrace(settled) =~= Map::new(
                    |c: u64| exists|k: int| 0 <= k < i && #[trigger] entries@[k].0 == c,
                    |c: u64| SqueezeStats { free_size: (state.stats[c].free_size - live_of(state.live, c)) as u64, ..state.stats[c] },
                )) by {
                    assert(entries@[i - 1].0 == b);
                    assert forall|c: u64| #[trigger] stats_by_backtrace(settled).contains_key(c) == (exists|k: int|
                        0 <= k < i && #[trigger] entries@[k].0 == c) by {
                        if c != b && (exists|k: int| 0 <= k < i && #[trigger] entries@[k].0 == c) {
                            let k = choose|k: int| 0 <= k < i && #[trigger] entries@[k].0 == c;
                            assert(k < i - 1);
                        }
                    }
                }
            }
        }
        proof {
            assert forall|b: u64| state.stats.contains_key(b) implies live_of(state.live, b) <= #[trigger] state.stats[b].free_size by {
                let k = choose|k: int| 0 <= k < entries@.len() && #[trigger] entries@[k].0 == b;
                assert(entries@[k].0 == b);
            }
            assert(stats_by_backtrace(settled) =~= settled_stats(state.stats, state.live));
        }
        let records = allocation_records_entries(self.records);
        let mut alive: Vec<(u64, u64)> = Vec::new();
        let mut j: usize = 0;
        while j < records.len()
            invariant
                state == self@,
                0 <= j <= records@.len(),
                alive@.len() == j,
                forall|k: int| #![trigger alive@[k]] 0 <= k < j ==> alive@[k].0 == records@[k].0 && alive@[k].1 == records@[k].1.0,
            decreases records@.len() - j,
        {
            let (p, record) = records[j];
            alive.push((p, record.0));
            j = j + 1;
        }
        proof {
            assert forall|i: int| #![trigger alive@[i]] 0 <= i < alive@.len() implies state.records.contains_key(alive@[i].0)
                && alive@[i].1 == state.records[alive@[i].0].0 by {
                assert(records@[i].0 == alive@[i].0);
            }
            assert forall|p: u64| state.records.contains_key(p) implies exists|i: int|
                0 <= i < alive@.len() && #[trigger] alive@[i].0 == p by {
                let k = choose|k: int| 0 <= k < records@.len() && #[trigger] records@[k].0 == p;
                assert(alive@[k].0 == p);
            }
            assert forall|i: int, k: int| 0 <= i < k < alive@.len() implies (#[trigger] alive@[i]).0 != (#[trigger] alive@[k]).0 by {
                assert(records@[i].0 != records@[k].0);
            }
        }
        let summary = ResolutionSummary { stats: settled, buckets: self.buckets, live: alive };
        proof {
            assert(state == self@);
            assert(settles(self@.stats, self@.live));
            assert(settles(state.stats, state.live));
            assert(summary.buckets@.map_values(|b: Vec<BucketEntry>| b@) == state.buckets);
            assert(stats_by_backtrace(summary.stats) == settled_stats(state.stats, state.live));
            assert(summary.live@ == alive@);
            assert(forall|i: int| #![trigger summary.live@[i]] 0 <= i < summary.live@.len()
                ==> self@.records.contains_key(summary.live@[i].0) && summary.live@[i].1 == self@.records[summary.live@[i].0].0);
            assert(forall|p: u64| self@.records.contains_key(p) ==> exists|i: int|
                0 <= i < summary.live@.len() && #[trigger] summary.live@[i].0 == p);
            assert(forall|i: int, j: int| 0 <= i < j < summary.live@.len() ==> (#[trigger] summary.live@[i]).0 != (#[trigger] summary.live@[j]).0);
        }
        Some(summary)
    }
}


/// The thread that the allocations standing for a bucket are made on.
pub const BUCKET_THREAD: u32 = 1234;

/// The deallocation, at `t`, of the allocation that stood for a backtrace's
/// share of a bucket.
pub open spec fn bucket_free(t: Timestamp, backtrace: u64) -> Event {
    Event::Free { timestamp: t, pointer: backtrace, backtrace, thread: BUCKET_THREAD }
}

/// The allocation, at `t`, that stands for a backtrace's share of a
/// bucket: at the backtrace's identifier as its pointer, of the most bytes
/// the backtrace held within the bucket.
pub open spec fn bucket_alloc(t: Timestamp, entry: BucketEntry) -> Event {
    Event::Alloc {
        timestamp: t,
        allocation: AllocBody {
            pointer: entry.0,
            size: entry.2,
            backtrace: entry.0,
            thread: BUCKET_THREAD,
            flags: 0,
            extra_usable_space: 0,
            preceding_free_space: 0,
        },
    }
}

/// The backtraces used so far, with those of a bucket's entries added in
/// order, each once.
pub open spec fn with_keys(used: Seq<u64>, entries: Seq<BucketEntry>) -> Seq<u64>
    decreases entries.len(),
{
    if entries.len() == 0 {
        used
    } else {
        let u = with_keys(used, entries.drop_last());
        if u.contains(entries.last().0) {
            u
        } else {
            u.push(entries.last().0)
        }
    }
}

/// Where the second pass stands: the buckets still to open, where the next
/// one starts, the backtraces whose allocations stand for a bucket, the
/// statistics not yet written, and the identifier of the next decoded
/// backtrace.
pub struct ReplayState {
    pub pending: Seq<Seq<BucketEntry>>,
    pub next_bucket: u64,
    pub step: u64,
    pub used: Seq<u64>,
    pub stats: Map<u64, SqueezeStats>,
    pub decoded: u64,
}

/// The summary of a backtrace's allocations, as an event.
pub open spec fn summary_event(backtrace: u64, s: SqueezeStats) -> Event {
    Event::GroupStatistics {
        backtrace,
        first_allocation: s.first_allocation,
        last_allocation: s.last_allocation,
        free_count: s.free_count,
        free_size: s.free_size,
        min_size: s.min_size,
        max_size: s.max_size,
    }
}

impl ReplayState {
    /// Where an event's time reaches the next bucket: the allocations that
    /// stood for the last one are freed and those of the next one are
    /// made, at that time; `None` where no bucket is left.
    pub open spec fn opened(self, event: Event) -> Option<(ReplayState, Seq<Event>)> {
        match timestamp_of(event) {
            Some(t) => if t.0 >= self.next_bucket {
                if self.pending.len() == 0 || self.next_bucket + self.step > u64::MAX {
                    None
                } else {
                    let bucket = self.pending[0];
                    Some(
                        (
                            ReplayState {
                                pending: self.pending.drop_first(),
                                next_bucket: (self.next_bucket + self.step) as u64,
                                used: with_keys(self.used, bucket),
                                ..self
                            },
                            self.used.map_values(|b: u64| bucket_free(t, b)) + bucket.map_values(
                                |e: BucketEntry| bucket_alloc(t, e),
                            ),
                        ),
                    )
                }
            } else {
                Some((self, Seq::empty()))
            },
            None => Some((self, Seq::empty())),
        }
    }

    /// The summary of backtrace `id`, written once, right after it.
    pub open spec fn summarized(self, id: u64) -> (ReplayState, Seq<Event>) {
        if self.stats.contains_key(id) {
            (ReplayState { stats: self.stats.remove(id), ..self }, seq![summary_event(id, self.stats[id])])
        } else {
            (self, Seq::empty())
        }
    }

    /// The state and what is written once an event was seen: allocations
    /// are dropped, for the buckets stand for them; a backtrace is written
    /// with its summary after it; the rest is written as it is. `None` for
    /// a reallocation or deallocation, which the first pass leaves out.
    pub open spec fn replayed(self, event: Event) -> Option<(ReplayState, Seq<Event>)> {
        match self.opened(event) {
            Some((s, out)) => match event {
                Event::Alloc { .. } => Some((s, out)),
                Event::Realloc { .. } => None,
                Event::Free { .. } => None,
                Event::Backtrace { id, .. } => {
                    let (t, summary) = s.summarized(id);
                    Some((t, out.push(event) + summary))
                },
                Event::PartialBacktrace { id, .. } => {
                    let (t, summary) = s.summarized(id);
                    Some((t, out.push(event) + summary))
                },
                Event::DecodedBacktrace { .. } => if s.decoded == u64::MAX {
                    None
                } else {
                    let (t, summary) = ReplayState { decoded: (s.decoded + 1) as u64, ..s }.summarized(s.decoded);
                    Some((t, out.push(event) + summary))
                },
                _ => Some((s, out.push(event))),
            },
            None => None,
        }
    }
}

/// The second pass of lowering a recording's time resolution: it reads
/// the events the first pass wrote and writes, in place of the
/// allocations, one allocation for each backtrace's share of each bucket.
pub struct ResolutionReplay {
    pending: Vec<Vec<BucketEntry>>,
    opened: usize,
    next_bucket: u64,
    step: u64,
    used: Vec<u64>,
    stats: AHashMap<u64, SqueezeStats>,
    decoded: u64,
}

impl View for ResolutionReplay {
    type V = ReplayState;

    closed spec fn view(&self) -> ReplayState {
        ReplayState {
            pending: self.pending@.map_values(|b: Vec<BucketEntry>| b@).skip(self.opened as int),
            next_bucket: self.next_bucket,
            step: self.step,
            used: self.used@,
            stats: stats_by_backtrace(self.stats),
            decoded: self.decoded,
        }
    }
}

fn with_keys_now(used: &mut Vec<u64>, entries: &Vec<BucketEntry>)
    ensures
        final(used)@ == with_keys(old(used)@, entries@),
{
    let mut i: usize = 0;
    proof {
        assert(entries@.take(0) =~= Seq::<BucketEntry>::empty());
    }
    while i < entries.len()
        invariant
            0 <= i <= entries@.len(),
            used@ == with_keys(old(used)@, entries@.take(i as int)),
        decreases entries@.len() - i,
    {
        let key = entries[i].0;
        let mut found = false;
        let mut j: usize = 0;
        while j < used.len()
            invariant
                0 <= j <= used@.len(),
                found == exists|k: int| 0 <= k < j && used@[k] == key,
            decreases used@.len() - j,
        {
            if used[j] == key {
                found = true;
            }
            j = j + 1;
        }
        proof {
            assert(entries@.take(i + 1).drop_last() =~= entries@.take(i as int));
            assert(entries@.take(i + 1).last() == entries@[i as int]);
            if found {
                let k = choose|k: int| 0 <= k < j && used@[k] == key;
                assert(used@.contains(key));
            } else {
                assert(!used@.contains(key));
            }
        }
        if !found {
            used.push(key);
        }
        i = i + 1;
    }
    proof {
        assert(entries@.take(entries@.len() as int) =~= entries@);
    }
}

impl ResolutionReplay {
    pub closed spec fn wf(&self) -> bool {
        self.opened <= self.pending@.len()
    }

    /// A second pass over what the first gathered, with buckets of `step`
    /// from `start` on: it opens an empty bucket first.
    pub fn new(summary: ResolutionSummary, start: Timestamp, step: Timestamp) -> (replay: ResolutionReplay)
        ensures
            replay.wf(),
            replay@ == (ReplayState {
                pending: seq![Seq::<BucketEntry>::empty()] + summary.buckets@.map_values(|b: Vec<BucketEntry>| b@),
                next_bucket: start.0,
                step: step.0,
                used: Seq::empty(),
                stats: stats_by_backtrace(summary.stats),
                decoded: 0,
            }),
    {
        let mut pending: Vec<Vec<BucketEntry>> = Vec::new();
        pending.push(Vec::new());
        let mut buckets = summary.buckets;
        pending.append(&mut buckets);
        let replay = ResolutionReplay {
            pending,
            opened: 0,
            next_bucket: start.0,
            step: step.0,
            used: Vec::new(),
            stats: summary.stats,
            decoded: 0,
        };
        proof {
            assert(replay@.pending =~= seq![Seq::<BucketEntry>::empty()] + summary.buckets@.map_values(
                |b: Vec<BucketEntry>| b@,
            ));
            assert(replay@.used =~= Seq::<u64>::empty());
        }
        replay
    }

    fn open(&mut self, event: &Event, out: &mut Vec<Event>) -> (ok: bool)
        requires
            old(self).wf(),
        ensures
            final(self).wf(),
            ok == old(self)@.opened(*event) is Some,
            ok ==> final(self)@ == old(self)@.opened(*event).unwrap().0 && final(out)@ == old(out)@
                + old(self)@.opened(*event).unwrap().1,
    {
        let t = match get_timestamp(event) {
            Some(t) => t,
            None => {
                proof {
                    assert(out@ =~= old(out)@ + Seq::<Event>::empty());
                }
                return true;
            },
        };
        if t.0 < self.next_bucket {
            proof {
                assert(out@ =~= old(out)@ + Seq::<Event>::empty());
            }
            return true;
        }
        if self.opened >= self.pending.len() || self.next_bucket > u64::MAX - self.step {
            return false;
        }
        let ghost s = self@;
        let ghost start = out@;
        proof {
            assert(s.pending[0] == self.pending@[self.opened as int]@);
        }
        let mut k: usize = 0;
        while k < self.used.len()
            invariant
                self@ == s,
                out@ == start + s.used.take(k as int).map_values(|b: u64| bucket_free(t, b)),
                0 <= k <= self.used@.len(),
            decreases self.used@.len() - k,
        {
            out.push(Event::Free { timestamp: t, pointer: self.used[k], backtrace: self.used[k], thread: BUCKET_THREAD });
            k = k + 1;
            proof {
                assert(out@ =~= start + s.used.take(k as int).map_values(|b: u64| bucket_free(t, b)));
            }
        }
        let ghost middle = out@;
        proof {
            assert(s.used.take(s.used.len() as int) =~= s.used);
        }
        let index = self.opened;
        let mut m: usize = 0;
        while m < self.pending[index].len()
            invariant
                self@ == s,
                index == self.opened,
                index < self.pending@.len(),
                out@ == middle + self.pending@[index as int]@.take(m as int).map_values(|e: BucketEntry| bucket_alloc(t, e)),
                0 <= m <= self.pending@[index as int]@.len(),
            decreases self.pending@[index as int]@.len() - m,
        {
            let e = self.pending[index][m];
            out.push(
                Event::Alloc {
                    timestamp: t,
                    allocation: AllocBody {
                        pointer: e.0,
                        size: e.2,
                        backtrace: e.0,
                        thread: BUCKET_THREAD,
                        flags: 0,
                        extra_usable_space: 0,
                        preceding_free_space: 0,
                    },
                },
            );
            m = m + 1;
            proof {
                assert(out@ =~= middle + self.pending@[index as int]@.take(m as int).map_values(
                    |e: BucketEntry| bucket_alloc(t, e),
                ));
            }
        }
        proof {
            let b = self.pending@[index as int]@;
            assert(b.take(b.len() as int) =~= b);
        }
        let mut used = Vec::new();
        std::mem::swap(&mut used, &mut self.used);
        with_keys_now(&mut used, &self.pending[index]);
        self.used = used;
        self.opened = self.opened + 1;
        self.next_bucket = self.next_bucket + self.step;
        proof {
            assert(self@.pending =~= s.pending.drop_first());
            assert(out@ =~= start + (s.used.map_values(|b: u64| bucket_free(t, b)) + s.pending[0].map_values(
                |e: BucketEntry| bucket_alloc(t, e),
            )));
        }
        true
    }

    fn summarize(&mut self, id: u64, out: &mut Vec<Event>)
        requires
            old(self).wf(),
        ensures
            final(self).wf(),
            final(self)@ == old(self)@.summarized(id).0,
            final(out)@ == old(out)@ + old(self)@.summarized(id).1,
    {
        match stats_by_backtrace_get(&self.stats, id) {
            Some(s) => {
                out.push(
                    Event::GroupStatistics {
                        backtrace: id,
                        first_allocation: s.first_allocation,
                        last_allocation: s.last_allocation,
                        free_count: s.free_count,
                        free_size: s.free_size,
                        min_size: s.min_size,
                        max_size: s.max_size,
                    },
                );
                stats_by_backtrace_remove(&mut self.stats, id);
                proof {
                    assert(out@ =~= old(out)@ + old(self)@.summarized(id).1);
                }
            },
            None => {
                proof {
                    assert(out@ =~= old(out)@ + old(self)@.summarized(id).1);
                }
            },
        }
    }

    /// Takes an event the first pass wrote in: the events to write for it,
    /// or `None` for a reallocation or deallocation, or where the times
    /// run past the last bucket.
    pub fn process(&mut self, event: Event) -> (out: Option<Vec<Event>>)
        requires
            old(self).wf(),
        ensures
            final(self).wf(),
            out is Some <==> old(self)@.replayed(event) is Some,
            out matches Some(o) ==> final(self)@ == old(self)@.replayed(event).unwrap().0 && o@ == old(self)@.replayed(
                event,
            ).unwrap().1,
    {
        let ghost received = event;
        let mut out: Vec<Event> = Vec::new();
        if !self.open(&event, &mut out) {
            return None;
        }
        proof {
            assert(out@ =~= Seq::<Event>::empty() + out@);
        }
        match event {
            Event::Alloc { .. } => Some(out),
            Event::Realloc { .. } => None,
            Event::Free { .. } => None,
            Event::Backtrace { id, addresses } => {
                out.push(Event::Backtrace { id, addresses });
                self.summarize(id, &mut out);
                Some(out)
            },
            Event::PartialBacktrace { id, thread, frames_invalidated, addresses } => {
                out.push(Event::PartialBacktrace { id, thread, frames_invalidated, addresses });
                self.summarize(id, &mut out);
                Some(out)
            },
            Event::DecodedBacktrace { frames } => {
                if self.decoded == u64::MAX {
                    return None;
                }
                let id = self.decoded;
                self.decoded = self.decoded + 1;
                out.push(Event::DecodedBacktrace { frames });
                self.summarize(id, &mut out);
                Some(out)
            },
            _ => {
                out.push(event);
                Some(out)
            },
        }
    }

    /// Ends the second pass: the allocations that stood for the last bucket
    /// are freed at `last`; `None` where a summary was never written.
    pub fn finish(self, last: Timestamp) -> (out: Option<Vec<Event>>)
        ensures
            out is Some <==> self@.stats == stats_by_backtrace_none(),
            out matches Some(o) ==> o@ == self@.used.map_values(|b: u64| bucket_free(last, b)),
    {
        let ghost s = self@;
        if !stats_by_backtrace_is_empty(&self.stats) {
            return None;
        }
        let mut out: Vec<Event> = Vec::new();
        let mut k: usize = 0;
        while k < self.used.len()
            invariant
                s == self@,
                out@ == self@.used.take(k as int).map_values(|b: u64| bucket_free(last, b)),
                0 <= k <= self.used@.len(),
            decreases self.used@.len() - k,
        {
            out.push(Event::Free { timestamp: last, pointer: self.used[k], backtrace: self.used[k], thread: BUCKET_THREAD });
            k = k + 1;
            proof {
                assert(out@ =~= self@.used.take(k as int).map_values(|b: u64| bucket_free(last, b)));
            }
        }
        proof {
            assert(self@.used.take(self@.used.len() as int) =~= self@.used);
        }
        Some(out)
    }
}

} // verus!
