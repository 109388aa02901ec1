//! Filters over loaded allocations: a basic filter lists bounds on an
//! allocation, on the chain of reallocations it lies on and on the group of
//! allocations made from its backtrace; it is compiled against the loaded
//! data into plain bounds, which then say of each allocation whether it
//! passes. Filters combine with `and`, `or` and `not`.

use vstd::prelude::*;
use ahash::AHashSet;
use crate::timestamp::Timestamp;
use crate::data::{
    Allocation, has_flag, ALLOCATION_IS_JEMALLOC, ALLOCATION_IS_MMAPED, ALLOCATION_IN_NON_MAIN_ARENA,
};
use crate::loaded::{Data, backtrace_frames};
use crate::frame::Frame;
use crate::ids::StringId;
use crate::strings::table_strings;
use crate::pattern::{regex_matches, pattern_matches, pattern_compiles};
use crate::group_usage::{peak_times, usage_peaks, lemma_peak_times_len};
use crate::index_maps::{
    backtrace_set, backtrace_set_new, backtrace_set_insert, backtrace_set_contains, backtrace_set_clone,
};

verus! {

/// A span of time, as the filters take it.
#[derive(Copy, Clone, PartialEq, Eq, PartialOrd, Ord, Debug, Structural)]
pub struct Duration(pub Timestamp);

impl Duration {
    pub fn from_secs(value: u64) -> (d: Duration)
        requires
            value * 1_000_000 <= u64::MAX,
        ensures
            d.0.0 == value * 1_000_000,
    {
        Duration(Timestamp::from_secs(value))
    }

    pub fn from_usecs(value: u64) -> (d: Duration)
        ensures
            d.0.0 == value,
    {
        Duration(Timestamp::from_usecs(value))
    }

    pub fn from_msecs(value: u64) -> (d: Duration)
        requires
            value * 1_000 <= u64::MAX,
        ensures
            d.0.0 == value * 1_000,
    {
        Duration(Timestamp::from_msecs(value))
    }
}

/// A limit given either as a number or as a fraction of a total; a fraction
/// is held in billionths.
#[derive(Copy, Clone, Debug, PartialEq, Eq, Structural)]
pub enum NumberOrFractionOfTotal {
    Number(u64),
    Fraction(u64),
}

/// The number of billionths in a whole.
pub const BILLION: u64 = 1_000_000_000;

impl NumberOrFractionOfTotal {
    /// The limit for a total: the number itself, or the fraction of the
    /// total rounded down, no greater than the largest `u64`.
    pub open spec fn limit(self, total: u64) -> u64 {
        match self {
            NumberOrFractionOfTotal::Number(value) => value,
            NumberOrFractionOfTotal::Fraction(billionths) => {
                let value = total * billionths / (BILLION as int);
                if value > u64::MAX {
                    u64::MAX
                } else {
                    value as u64
                }
            },
        }
    }

    pub fn get(self, total: u64) -> (value: u64)
        ensures
            value == self.limit(total),
    {
        match self {
            NumberOrFractionOfTotal::Number(value) => value,
            NumberOrFractionOfTotal::Fraction(billionths) => {
                let wide_total = total as u128;
                let wide_billionths = billionths as u128;
                assert(wide_total * wide_billionths <= u64::MAX * u64::MAX) by (nonlinear_arith)
                    requires
                        wide_total <= u64::MAX,
                        wide_billionths <= u64::MAX,
                ;
                let value = wide_total * wide_billionths / (BILLION as u128);
                if value > u64::MAX as u128 {
                    u64::MAX
                } else {
                    value as u64
                }
            },
        }
    }
}

/// The allocations made from one backtrace: how many, and the earliest and
/// latest of their times.
#[derive(Copy, Clone, Debug, PartialEq, Eq, Structural)]
pub struct GroupSpan {
    pub count: usize,
    pub earliest: Timestamp,
    pub latest: Timestamp,
}

/// The span of nothing.
pub open spec fn empty_span() -> GroupSpan {
    GroupSpan { count: 0, earliest: Timestamp(u64::MAX), latest: Timestamp(0) }
}

/// The span of the allocations from backtrace `backtrace`.
pub open spec fn group_span(allocations: Seq<Allocation>, backtrace: u32) -> GroupSpan
    decreases allocations.len(),
{
    if allocations.len() == 0 {
        empty_span()
    } else {
        let span = group_span(allocations.drop_last(), backtrace);
        let a = allocations.last();
        if a.backtrace.0 == backtrace {
            GroupSpan {
                count: (span.count + 1) as usize,
                earliest: if a.timestamp.0 < span.earliest.0 { a.timestamp } else { span.earliest },
                latest: if a.timestamp.0 > span.latest.0 { a.timestamp } else { span.latest },
            }
        } else {
            span
        }
    }
}

/// A span counts no more allocations than there are, and where it counts
/// any, its earliest time is no later than its latest.
pub proof fn lemma_group_span_bounds(allocations: Seq<Allocation>, backtrace: u32)
    ensures
        group_span(allocations, backtrace).count <= allocations.len(),
        group_span(allocations, backtrace).count > 0 ==> group_span(allocations, backtrace).earliest.0
            <= group_span(allocations, backtrace).latest.0,
    decreases allocations.len(),
{
    if allocations.len() > 0 {
        lemma_group_span_bounds(allocations.drop_last(), backtrace);
    }
}

/// Where each allocation's lifetime ends: when it was freed, or else at the
/// end of the recording.
pub open spec fn lifetime_end(data: &Data, a: Allocation) -> Timestamp {
    match a.deallocation {
        Some(d) => d.timestamp,
        None => data.last_timestamp,
    }
}

/// The backtrace from which an allocation was freed, if it is known.
pub open spec fn deallocation_backtrace(a: Allocation) -> Option<u32> {
    match a.deallocation {
        Some(d) => match d.backtrace {
            Some(b) => Some(b.0),
            None => None,
        },
        None => None,
    }
}

/// The members of an optional set.
pub open spec fn set_view(set: Option<AHashSet<u32>>) -> Option<Set<u32>> {
    match set {
        Some(s) => Some(backtrace_set(s)),
        None => None,
    }
}

/// What an allocation's chain of reallocations amounts to: the sizes of its
/// first and last allocation, its length, when it started and ended, and
/// whether it was freed. An allocation on no chain stands for itself.
pub open spec fn chain_summary(data: &Data, a: Allocation) -> (u64, u64, u32, Timestamp, Timestamp, bool) {
    match a.first_allocation_in_chain {
        Some(f) => {
            let chain = data.chains()[f.0];
            let first = data.allocations@[chain.first.0 as int];
            let last = data.allocations@[chain.last.0 as int];
            (first.size, last.size, chain.length, first.timestamp, lifetime_end(data, last), last.deallocation is Some)
        },
        None => (a.size, a.size, 1, a.timestamp, lifetime_end(data, a), a.deallocation is Some),
    }
}

/// Whether an allocation's chain can be looked at: it is known, its ends
/// are allocations of the data, and it ends no earlier than it starts.
pub open spec fn chain_known(data: &Data, a: Allocation) -> bool {
    a.first_allocation_in_chain matches Some(f) ==> {
        &&& data.chains().contains_key(f.0)
        &&& data.chains()[f.0].first.0 < data.allocations@.len()
        &&& data.chains()[f.0].last.0 < data.allocations@.len()
        &&& data.allocations@[data.chains()[f.0].first.0 as int].timestamp.0 <= lifetime_end(
            data,
            data.allocations@[data.chains()[f.0].last.0 as int],
        ).0
    }
}

/// Whether an allocation's group can be looked at: its backtrace has
/// statistics and at least one allocation, and no more of them were freed
/// than made.
pub open spec fn group_known(data: &Data, a: Allocation) -> bool {
    &&& a.backtrace.0 < data.group_stats@.len()
    &&& group_span(data.allocations@, a.backtrace.0).count > 0
    &&& data.group_stats@[a.backtrace.0 as int].free_count <= data.group_stats@[a.backtrace.0 as int].alloc_count
}

/// A basic filter compiled against loaded data: plain bounds.
pub struct CompiledBasicFilter {
    /// Whether the bounds contradict each other, so nothing passes.
    pub is_impossible: bool,
    pub only_backtraces: Option<AHashSet<u32>>,
    pub only_not_matching_backtraces: Option<AHashSet<u32>>,
    pub only_deallocation_backtraces: Option<AHashSet<u32>>,
    pub only_not_matching_deallocation_backtraces: Option<AHashSet<u32>>,
    pub only_larger_or_equal: u64,
    pub only_smaller_or_equal: u64,
    pub only_address_at_least: u64,
    pub only_address_at_most: u64,
    pub only_allocated_after_at_least: Timestamp,
    pub only_allocated_until_at_most: Timestamp,
    pub only_deallocated_between_inclusive: Option<(Timestamp, Timestamp)>,
    pub only_not_deallocated_after_at_least: Option<Timestamp>,
    pub only_not_deallocated_until_at_most: Option<Timestamp>,
    pub only_alive_for_at_least: Duration,
    pub only_alive_for_at_most: Option<Duration>,
    pub only_leaked_or_deallocated_after: Timestamp,
    pub enable_chain_filter: bool,
    pub only_first_size_larger_or_equal: u64,
    pub only_first_size_smaller_or_equal: u64,
    pub only_last_size_larger_or_equal: u64,
    pub only_last_size_smaller_or_equal: u64,
    pub only_chain_length_at_least: u32,
    pub only_chain_length_at_most: u32,
    pub only_chain_alive_for_at_least: Duration,
    pub only_chain_alive_for_at_most: Option<Duration>,
    pub only_chain_leaked_or_deallocated_after: Timestamp,
    pub only_chain_deallocated_between_inclusive: Option<(Timestamp, Timestamp)>,
    pub enable_group_filter: bool,
    pub only_group_allocations_at_least: usize,
    pub only_group_allocations_at_most: usize,
    pub only_group_interval_at_least: Duration,
    pub only_group_interval_at_most: Duration,
    pub only_group_leaked_allocations_at_least: NumberOrFractionOfTotal,
    pub only_group_leaked_allocations_at_most: NumberOrFractionOfTotal,
    pub only_group_max_total_usage_first_seen_at_least: Timestamp,
    pub only_group_max_total_usage_first_seen_at_most: Timestamp,
    pub only_ptmalloc_mmaped: Option<bool>,
    pub only_ptmalloc_from_main_arena: Option<bool>,
    pub only_jemalloc: Option<bool>,
    pub only_with_marker: Option<u32>,
    /// The span of each backtrace's allocations, by backtrace; filled only
    /// where the group bounds are on.
    pub groups: Vec<GroupSpan>,
    /// When the bytes in use from each backtrace first reached their most,
    /// by backtrace; filled only where the group bounds are on.
    pub peaks: Vec<Timestamp>,
}

impl CompiledBasicFilter {
    /// The bounds on the size, address and time of an allocation, and on
    /// when it was freed.
    pub open spec fn passes_first(&self, a: Allocation) -> bool {
        &&& self.only_larger_or_equal <= a.size <= self.only_smaller_or_equal
        &&& self.only_address_at_least <= a.pointer <= self.only_address_at_most
        &&& self.only_allocated_after_at_least.0 <= a.timestamp.0 <= self.only_allocated_until_at_most.0
        &&& (self.only_deallocated_between_inclusive matches Some(range) ==> (a.deallocation matches Some(d)
            && range.0.0 <= d.timestamp.0 <= range.1.0))
    }

    /// The bounds on how long an allocation lived, on when it was freed,
    /// and on the backtraces it was made and freed from.
    pub open spec fn passes_lifetime(&self, data: &Data, a: Allocation) -> bool {
        let lifetime = lifetime_end(data, a).0 - a.timestamp.0;
        &&& self.only_alive_for_at_least.0.0 <= lifetime
        &&& (self.only_alive_for_at_most matches Some(max) ==> lifetime <= max.0.0)
        &&& (a.deallocation matches Some(d) ==> {
            &&& d.timestamp.0 > self.only_leaked_or_deallocated_after.0
            &&& (self.only_not_deallocated_after_at_least matches Some(t) ==> d.timestamp.0 < t.0)
            &&& (self.only_not_deallocated_until_at_most matches Some(t) ==> d.timestamp.0 > t.0)
        })
        &&& (set_view(self.only_backtraces) matches Some(set) ==> set.contains(a.backtrace.0))
        &&& (set_view(self.only_not_matching_backtraces) matches Some(set) ==> !set.contains(a.backtrace.0))
        &&& (set_view(self.only_deallocation_backtraces) matches Some(set) ==> (deallocation_backtrace(a) matches Some(b)
            && set.contains(b)))
        &&& (set_view(self.only_not_matching_deallocation_backtraces) matches Some(set) ==> !(deallocation_backtrace(a) matches Some(b)
            && set.contains(b)))
    }

    /// The bounds on an allocation's chain of reallocations.
    pub open spec fn passes_chain(&self, data: &Data, a: Allocation) -> bool {
        let (first_size, last_size, length, start, end, was_deallocated) = chain_summary(data, a);
        let lifetime = end.0 - start.0;
        &&& self.only_first_size_larger_or_equal <= first_size <= self.only_first_size_smaller_or_equal
        &&& self.only_last_size_larger_or_equal <= last_size <= self.only_last_size_smaller_or_equal
        &&& self.only_chain_length_at_least <= length <= self.only_chain_length_at_most
        &&& self.only_chain_alive_for_at_least.0.0 <= lifetime
        &&& (self.only_chain_alive_for_at_most matches Some(max) ==> lifetime <= max.0.0)
        &&& (was_deallocated ==> end.0 > self.only_chain_leaked_or_deallocated_after.0)
        &&& (self.only_chain_deallocated_between_inclusive matches Some(range) ==> was_deallocated && range.0.0
            <= end.0 <= range.1.0)
    }

    /// The bounds on the group of allocations made from an allocation's
    /// backtrace.
    pub open spec fn passes_group(&self, data: &Data, a: Allocation) -> bool {
        let span = group_span(data.allocations@, a.backtrace.0);
        let stats = data.group_stats@[a.backtrace.0 as int];
        let leaked = stats.alloc_count - stats.free_count;
        let interval = span.latest.0 - span.earliest.0;
        &&& self.only_group_allocations_at_least <= span.count <= self.only_group_allocations_at_most
        &&& self.only_group_interval_at_least.0.0 <= interval <= self.only_group_interval_at_most.0.0
        &&& self.only_group_leaked_allocations_at_least.limit(stats.alloc_count) <= leaked
        &&& leaked <= self.only_group_leaked_allocations_at_most.limit(stats.alloc_count)
        &&& self.only_group_max_total_usage_first_seen_at_least.0 <= self.peaks@[a.backtrace.0 as int].0
        &&& self.peaks@[a.backtrace.0 as int].0 <= self.only_group_max_total_usage_first_seen_at_most.0
    }

    /// The bounds on the allocator's flags and on the marker.
    pub open spec fn passes_flags(&self, a: Allocation) -> bool {
        let jemalloc = has_flag(a.flags, ALLOCATION_IS_JEMALLOC);
        &&& (self.only_ptmalloc_mmaped matches Some(v) ==> !jemalloc && has_flag(a.flags, ALLOCATION_IS_MMAPED) == v)
        &&& (self.only_ptmalloc_from_main_arena matches Some(v) ==> !jemalloc && !has_flag(
            a.flags,
            ALLOCATION_IN_NON_MAIN_ARENA,
        ) == v)
        &&& (self.only_jemalloc matches Some(v) ==> jemalloc == v)
        &&& (self.only_with_marker matches Some(m) ==> a.marker == m)
    }

    /// Whether an allocation passes the filter.
    pub open spec fn accepts(&self, data: &Data, a: Allocation) -> bool {
        &&& !self.is_impossible
        &&& self.passes_first(a)
        &&& self.passes_lifetime(data, a)
        &&& (self.enable_chain_filter ==> self.passes_chain(data, a))
        &&& (self.enable_group_filter ==> self.passes_group(data, a))
        &&& self.passes_flags(a)
    }

    /// Whether the spans of the groups are those of the data.
    pub open spec fn groups_of(&self, data: &Data) -> bool {
        &&& self.groups@.len() == data.group_stats@.len()
        &&& peak_times(data) == Some(self.peaks@)
        &&& forall|b: int| 0 <= b < self.groups@.len() ==> #[trigger] self.groups@[b] == group_span(data.allocations@, b as u32)
    }

    /// Whether an allocation can be matched: what each check looks at can
    /// be looked at, once the checks before it have passed.
    pub open spec fn can_match(&self, data: &Data, a: Allocation) -> bool {
        let before_lifetime = !self.is_impossible && self.passes_first(a);
        let before_chain = before_lifetime && self.passes_lifetime(data, a);
        let before_group = before_chain && (self.enable_chain_filter ==> self.passes_chain(data, a));
        &&& before_lifetime ==> a.timestamp.0 <= lifetime_end(data, a).0
        &&& before_chain && self.enable_chain_filter ==> chain_known(data, a)
        &&& before_group && self.enable_group_filter ==> group_known(data, a)
    }

    /// Whether the filter was made for the data: where the group bounds
    /// are on, it holds the spans of the data's groups.
    pub open spec fn prepared_for(&self, data: &Data) -> bool {
        self.enable_group_filter ==> self.groups_of(data)
    }

    fn passes_first_now(&self, a: &Allocation) -> (r: bool)
        ensures
            r == self.passes_first(*a),
    {
        if !(a.size <= self.only_smaller_or_equal && a.size >= self.only_larger_or_equal) {
            return false;
        }
        if !(a.pointer >= self.only_address_at_least && a.pointer <= self.only_address_at_most) {
            return false;
        }
        if !(a.timestamp.0 >= self.only_allocated_after_at_least.0 && a.timestamp.0 <= self.only_allocated_until_at_most.0) {
            return false;
        }
        if let Some((min, max)) = self.only_deallocated_between_inclusive {
            if let Some(ref deallocation) = a.deallocation {
                if !(deallocation.timestamp.0 >= min.0 && deallocation.timestamp.0 <= max.0) {
                    return false;
                }
            } else {
                return false;
            }
        }
        true
    }

    fn passes_lifetime_now(&self, data: &Data, a: &Allocation) -> (r: bool)
        requires
            a.timestamp.0 <= lifetime_end(data, *a).0,
        ensures
            r == self.passes_lifetime(data, *a),
    {
        let lifetime_end = match a.deallocation {
            Some(ref deallocation) => deallocation.timestamp,
            None => data.last_timestamp,
        };
        let lifetime = Duration(Timestamp(lifetime_end.0 - a.timestamp.0));
        if lifetime.0.0 < self.only_alive_for_at_least.0.0 {
            return false;
        }
        if let Some(max) = self.only_alive_for_at_most {
            if lifetime.0.0 > max.0.0 {
                return false;
            }
        }
        if let Some(ref deallocation) = a.deallocation {
            if !(deallocation.timestamp.0 > self.only_leaked_or_deallocated_after.0) {
                return false;
            }
            if let Some(t) = self.only_not_deallocated_after_at_least {
                if deallocation.timestamp.0 >= t.0 {
                    return false;
                }
            }
            if let Some(t) = self.only_not_deallocated_until_at_most {
                if deallocation.timestamp.0 <= t.0 {
                    return false;
                }
            }
        }
        if let Some(ref set) = self.only_backtraces {
            if !backtrace_set_contains(set, a.backtrace.0) {
                return false;
            }
        }
        if let Some(ref set) = self.only_not_matching_backtraces {
            if backtrace_set_contains(set, a.backtrace.0) {
                return false;
            }
        }
        if let Some(ref set) = self.only_deallocation_backtraces {
            if let Some(ref deallocation) = a.deallocation {
                if let Some(backtrace) = deallocation.backtrace {
                    if !backtrace_set_contains(set, backtrace.0) {
                        return false;
                    }
                } else {
                    return false;
                }
            } else {
                return false;
            }
        }
        if let Some(ref set) = self.only_not_matching_deallocation_backtraces {
            if let Some(ref deallocation) = a.deallocation {
                if let Some(backtrace) = deallocation.backtrace {
                    if backtrace_set_contains(set, backtrace.0) {
                        return false;
                    }
                }
            }
        }
        true
    }

    fn passes_chain_now(&self, data: &Data, a: &Allocation) -> (r: bool)
        requires
            a.timestamp.0 <= lifetime_end(data, *a).0,
            chain_known(data, *a),
        ensures
            r == self.passes_chain(data, *a),
    {
        let first_allocation_size;
        let last_allocation_size;
        let chain_length;
        let chain_start;
        let chain_lifetime_end;
        let was_deallocated;
        if let Some(first_in_chain) = a.first_allocation_in_chain {
            let chain = data.get_chain_by_first_allocation(first_in_chain).unwrap();
            let first_allocation = data.get_allocation(chain.first);
            let last_allocation = data.get_allocation(chain.last);
            first_allocation_size = first_allocation.size;
            last_allocation_size = last_allocation.size;
            chain_length = chain.length;
            chain_start = first_allocation.timestamp;
            chain_lifetime_end = match last_allocation.deallocation {
                Some(ref deallocation) => deallocation.timestamp,
                None => data.last_timestamp,
            };
            was_deallocated = last_allocation.deallocation.is_some();
        } else {
            first_allocation_size = a.size;
            last_allocation_size = a.size;
            chain_length = 1;
            chain_start = a.timestamp;
            chain_lifetime_end = match a.deallocation {
                Some(ref deallocation) => deallocation.timestamp,
                None => data.last_timestamp,
            };
            was_deallocated = a.deallocation.is_some();
        }
        let chain_lifetime = Duration(Timestamp(chain_lifetime_end.0 - chain_start.0));
        if !(first_allocation_size <= self.only_first_size_smaller_or_equal && first_allocation_size
            >= self.only_first_size_larger_or_equal) {
            return false;
        }
        if !(last_allocation_size <= self.only_last_size_smaller_or_equal && last_allocation_size
            >= self.only_last_size_larger_or_equal) {
            return false;
        }
        if !(chain_length >= self.only_chain_length_at_least && chain_length <= self.only_chain_length_at_most) {
            return false;
        }
        if chain_lifetime.0.0 < self.only_chain_alive_for_at_least.0.0 {
            return false;
        }
        if let Some(max) = self.only_chain_alive_for_at_most {
            if chain_lifetime.0.0 > max.0.0 {
                return false;
            }
        }
        if was_deallocated {
            if !(chain_lifetime_end.0 > self.only_chain_leaked_or_deallocated_after.0) {
                return false;
            }
        }
        if let Some((min, max)) = self.only_chain_deallocated_between_inclusive {
            if !was_deallocated {
                return false;
            }
            if !(chain_lifetime_end.0 >= min.0 && chain_lifetime_end.0 <= max.0) {
                return false;
            }
        }
        true
    }

    fn passes_group_now(&self, data: &Data, a: &Allocation) -> (r: bool)
        requires
            group_known(data, *a),
            self.groups_of(data),
        ensures
            r == self.passes_group(data, *a),
    {
        let index = a.backtrace.0 as usize;
        let span = self.groups[index];
        proof {
            assert(span == group_span(data.allocations@, a.backtrace.0));
            lemma_group_span_bounds(data.allocations@, a.backtrace.0);
        }
        if span.count < self.only_group_allocations_at_least {
            return false;
        }
        if span.count > self.only_group_allocations_at_most {
            return false;
        }
        let interval = Duration(Timestamp(span.latest.0 - span.earliest.0));
        if interval.0.0 < self.only_group_interval_at_least.0.0 {
            return false;
        }
        if interval.0.0 > self.only_group_interval_at_most.0.0 {
            return false;
        }
        let stats = data.get_group_statistics(a.backtrace);
        let total_allocations = stats.alloc_count;
        let leaked = stats.alloc_count - stats.free_count;
        if leaked < self.only_group_leaked_allocations_at_least.get(total_allocations) {
            return false;
        }
        if leaked > self.only_group_leaked_allocations_at_most.get(total_allocations) {
            return false;
        }
        proof {
            lemma_peak_times_len(data);
        }
        let peak = self.peaks[index];
        peak.0 >= self.only_group_max_total_usage_first_seen_at_least.0 && peak.0
            <= self.only_group_max_total_usage_first_seen_at_most.0
    }

    fn passes_flags_now(&self, a: &Allocation) -> (r: bool)
        ensures
            r == self.passes_flags(*a),
    {
        if let Some(value) = self.only_ptmalloc_mmaped {
            if a.is_jemalloc() {
                return false;
            }
            if a.is_mmaped() != value {
                return false;
            }
        }
        if let Some(value) = self.only_ptmalloc_from_main_arena {
            if a.is_jemalloc() {
                return false;
            }
            if !a.in_non_main_arena() != value {
                return false;
            }
        }
        if let Some(value) = self.only_jemalloc {
            if a.is_jemalloc() != value {
                return false;
            }
        }
        if let Some(marker) = self.only_with_marker {
            if a.marker != marker {
                return false;
            }
        }
        true
    }

    /// Whether `allocation` passes the filter.
    pub fn try_match(&self, data: &Data, allocation: &Allocation) -> (r: bool)
        requires
            self.prepared_for(data),
            self.can_match(data, *allocation),
        ensures
            r == self.accepts(data, *allocation),
    {
        if self.is_impossible {
            return false;
        }
        if !self.passes_first_now(allocation) {
            return false;
        }
        if !self.passes_lifetime_now(data, allocation) {
            return false;
        }
        if self.enable_chain_filter {
            if !self.passes_chain_now(data, allocation) {
                return false;
            }
        }
        if self.enable_group_filter {
            if !self.passes_group_now(data, allocation) {
                return false;
            }
        }
        self.passes_flags_now(allocation)
    }
}

/// A value, or a default where there is none.
pub open spec fn or_else<T>(value: Option<T>, default: T) -> T {
    match value {
        Some(v) => v,
        None => default,
    }
}

/// The least value let through by an inclusive and an exclusive lower
/// bound.
pub open spec fn lower_limit(at_least: Option<u64>, above: Option<u64>) -> u64 {
    let base = or_else(at_least, 0u64);
    match above {
        Some(v) => if v < u64::MAX && base < v + 1 {
            (v + 1) as u64
        } else {
            base
        },
        None => base,
    }
}

/// The greatest value let through by an inclusive and an exclusive upper
/// bound.
pub open spec fn upper_limit(at_most: Option<u64>, below: Option<u64>) -> u64 {
    let base = or_else(at_most, u64::MAX);
    match below {
        Some(v) => if v > 0 && v - 1 < base {
            (v - 1) as u64
        } else {
            base
        },
        None => base,
    }
}

/// The time an offset from the start of the recording stands for, or a
/// default where there is no offset.
pub open spec fn at_offset(initial: Timestamp, offset: Option<Duration>, default: Timestamp) -> Timestamp {
    match offset {
        Some(o) => Timestamp((initial.0 + o.0.0) as u64),
        None => default,
    }
}

/// Whether an offset from the start of the recording is a time that can
/// be held.
pub open spec fn offset_fits(initial: Timestamp, offset: Option<Duration>) -> bool {
    offset matches Some(o) ==> initial.0 + o.0.0 <= u64::MAX
}

/// The later of two times.
pub open spec fn later_time(a: Timestamp, b: Timestamp) -> Timestamp {
    if a.0 < b.0 { b } else { a }
}

/// The earlier of two times.
pub open spec fn earlier_time(a: Timestamp, b: Timestamp) -> Timestamp {
    if a.0 < b.0 { a } else { b }
}

/// The text of the string that `id` names in the data's table, if the
/// table holds one under it.
pub open spec fn string_text(data: &Data, id: Option<StringId>) -> Option<Seq<char>> {
    match id {
        Some(s) => if 1 <= s.0 <= table_strings(data.strings).len() {
            Some(table_strings(data.strings)[s.0 - 1])
        } else {
            None
        },
        None => None,
    }
}

/// The name of a frame's function: its demangled name where it has one,
/// else its raw name.
pub open spec fn function_text(data: &Data, frame: Frame) -> Option<Seq<char>> {
    string_text(data, if frame.function is Some { frame.function } else { frame.raw_function })
}

/// The text of an optional string.
pub open spec fn text_view(text: Option<String>) -> Option<Seq<char>> {
    match text {
        Some(t) => Some(t@),
        None => None,
    }
}

/// Whether `pattern` is given, `text` is there, and the pattern is a
/// regular expression that matches the text.
pub open spec fn pattern_hits(pattern: Option<String>, text: Option<Seq<char>>) -> bool {
    match (pattern, text) {
        (Some(p), Some(t)) => regex_matches(p@, t) == Some(true),
        _ => false,
    }
}

/// Whether `pattern`, where it is given, is a regular expression.
pub open spec fn optional_pattern_compiles(pattern: Option<String>) -> bool {
    match pattern {
        Some(p) => pattern_compiles(p@),
        None => true,
    }
}

/// Whether each backtrace of the data lies within the storage of frames,
/// and each of its frames is one of the data's frames.
pub open spec fn backtraces_sound(data: &Data) -> bool {
    forall|b: int|
        0 <= b < data.backtraces@.len() ==> {
            &&& data.backtraces@[b].0 + data.backtraces@[b].1 <= data.backtraces_storage@.len()
            &&& forall|i: int|
                0 <= i < data.backtraces@[b].1 ==> #[trigger] backtrace_frames(
                    data.backtraces@,
                    data.backtraces_storage@,
                    b,
                )[i] < data.frames@.len()
        }
}

/// Whether one of two opposite flags is set.
pub open spec fn one_of(yes: bool, no: bool) -> Option<bool> {
    if yes {
        Some(true)
    } else if no {
        Some(false)
    } else {
        None
    }
}

/// The longest interval the group bounds let through by default: five
/// thousand years, in microseconds.
pub const LONGEST_INTERVAL_USECS: u64 = 157_680_000_000_000_000;

/// Bounds on allocations, each of which is off where it is `None` or
/// `false`.
pub struct BasicFilter {
    /// A regular expression that the function of some frame must match.
    pub only_passing_through_function: Option<String>,
    /// A regular expression that the function of no frame may match.
    pub only_not_passing_through_function: Option<String>,
    /// A regular expression that the source file of some frame must match.
    pub only_passing_through_source: Option<String>,
    /// A regular expression that the source file of no frame may match.
    pub only_not_passing_through_source: Option<String>,
    pub only_matching_backtraces: Option<AHashSet<u32>>,
    pub only_not_matching_backtraces: Option<AHashSet<u32>>,
    pub only_backtrace_length_at_least: Option<usize>,
    pub only_backtrace_length_at_most: Option<usize>,
    pub only_matching_deallocation_backtraces: Option<AHashSet<u32>>,
    pub only_not_matching_deallocation_backtraces: Option<AHashSet<u32>>,
    pub only_larger_or_equal: Option<u64>,
    pub only_larger: Option<u64>,
    pub only_smaller_or_equal: Option<u64>,
    pub only_smaller: Option<u64>,
    pub only_address_at_least: Option<u64>,
    pub only_address_at_most: Option<u64>,
    pub only_allocated_after_at_least: Option<Duration>,
    pub only_allocated_until_at_most: Option<Duration>,
    pub only_deallocated_after_at_least: Option<Duration>,
    pub only_deallocated_until_at_most: Option<Duration>,
    pub only_not_deallocated_after_at_least: Option<Duration>,
    pub only_not_deallocated_until_at_most: Option<Duration>,
    pub only_alive_for_at_least: Option<Duration>,
    pub only_alive_for_at_most: Option<Duration>,
    pub only_leaked_or_deallocated_after: Option<Duration>,
    pub only_first_size_larger_or_equal: Option<u64>,
    pub only_first_size_larger: Option<u64>,
    pub only_first_size_smaller_or_equal: Option<u64>,
    pub only_first_size_smaller: Option<u64>,
    pub only_last_size_larger_or_equal: Option<u64>,
    pub only_last_size_larger: Option<u64>,
    pub only_last_size_smaller_or_equal: Option<u64>,
    pub only_last_size_smaller: Option<u64>,
    pub only_chain_length_at_least: Option<u32>,
    pub only_chain_length_at_most: Option<u32>,
    pub only_chain_alive_for_at_least: Option<Duration>,
    pub only_chain_alive_for_at_most: Option<Duration>,
    pub only_group_allocations_at_least: Option<usize>,
    pub only_group_allocations_at_most: Option<usize>,
    pub only_group_interval_at_least: Option<Duration>,
    pub only_group_interval_at_most: Option<Duration>,
    pub only_group_leaked_allocations_at_least: Option<NumberOrFractionOfTotal>,
    pub only_group_leaked_allocations_at_most: Option<NumberOrFractionOfTotal>,
    /// Bounds, from the start, on when the bytes in use from an
    /// allocation's backtrace first reached their most.
    pub only_group_max_total_usage_first_seen_at_least: Option<Duration>,
    pub only_group_max_total_usage_first_seen_at_most: Option<Duration>,
    pub only_leaked: bool,
    pub only_chain_leaked: bool,
    pub only_temporary: bool,
    pub only_chain_temporary: bool,
    pub only_ptmalloc_mmaped: bool,
    pub only_ptmalloc_not_mmaped: bool,
    pub only_ptmalloc_from_main_arena: bool,
    pub only_ptmalloc_not_from_main_arena: bool,
    pub only_jemalloc: bool,
    pub only_not_jemalloc: bool,
    pub only_with_marker: Option<u32>,
}

impl Default for BasicFilter {
    fn default() -> (filter: BasicFilter)
        ensures
            filter.is_unset(),
    {
        BasicFilter {
            only_passing_through_function: None,
            only_not_passing_through_function: None,
            only_passing_through_source: None,
            only_not_passing_through_source: None,
            only_matching_backtraces: None,
            only_not_matching_backtraces: None,
            only_backtrace_length_at_least: None,
            only_backtrace_length_at_most: None,
            only_matching_deallocation_backtraces: None,
            only_not_matching_deallocation_backtraces: None,
            only_larger_or_equal: None,
            only_larger: None,
            only_smaller_or_equal: None,
            only_smaller: None,
            only_address_at_least: None,
            only_address_at_most: None,
            only_allocated_after_at_least: None,
            only_allocated_until_at_most: None,
            only_deallocated_after_at_least: None,
            only_deallocated_until_at_most: None,
            only_not_deallocated_after_at_least: None,
            only_not_deallocated_until_at_most: None,
            only_alive_for_at_least: None,
            only_alive_for_at_most: None,
            only_leaked_or_deallocated_after: None,
            only_first_size_larger_or_equal: None,
            only_first_size_larger: None,
            only_first_size_smaller_or_equal: None,
            only_first_size_smaller: None,
            only_last_size_larger_or_equal: None,
            only_last_size_larger: None,
            only_last_size_smaller_or_equal: None,
            only_last_size_smaller: None,
            only_chain_length_at_least: None,
            only_chain_length_at_most: None,
            only_chain_alive_for_at_least: None,
            only_chain_alive_for_at_most: None,
            only_group_allocations_at_least: None,
            only_group_allocations_at_most: None,
            only_group_interval_at_least: None,
            only_group_interval_at_most: None,
            only_group_leaked_allocations_at_least: None,
            only_group_leaked_allocations_at_most: None,
            only_group_max_total_usage_first_seen_at_least: None,
            only_group_max_total_usage_first_seen_at_most: None,
            only_leaked: false,
            only_chain_leaked: false,
            only_temporary: false,
            only_chain_temporary: false,
            only_ptmalloc_mmaped: false,
            only_ptmalloc_not_mmaped: false,
            only_ptmalloc_from_main_arena: false,
            only_ptmalloc_not_from_main_arena: false,
            only_jemalloc: false,
            only_not_jemalloc: false,
            only_with_marker: None,
        }
    }
}

impl BasicFilter {
    /// Whether every bound is off.
    pub open spec fn is_unset(&self) -> bool {
        &&& self.only_passing_through_function is None
        &&& self.only_not_passing_through_function is None
        &&& self.only_passing_through_source is None
        &&& self.only_not_passing_through_source is None
        &&& self.only_matching_backtraces is None
        &&& self.only_not_matching_backtraces is None
        &&& self.only_backtrace_length_at_least is None
        &&& self.only_backtrace_length_at_most is None
        &&& self.only_matching_deallocation_backtraces is None
        &&& self.only_not_matching_deallocation_backtraces is None
        &&& self.only_larger_or_equal is None
        &&& self.only_larger is None
        &&& self.only_smaller_or_equal is None
        &&& self.only_smaller is None
        &&& self.only_address_at_least is None
        &&& self.only_address_at_most is None
        &&& self.only_allocated_after_at_least is None
        &&& self.only_allocated_until_at_most is None
        &&& self.only_deallocated_after_at_least is None
        &&& self.only_deallocated_until_at_most is None
        &&& self.only_not_deallocated_after_at_least is None
        &&& self.only_not_deallocated_until_at_most is None
        &&& self.only_alive_for_at_least is None
        &&& self.only_alive_for_at_most is None
        &&& self.only_leaked_or_deallocated_after is None
        &&& self.only_first_size_larger_or_equal is None
        &&& self.only_first_size_larger is None
        &&& self.only_first_size_smaller_or_equal is None
        &&& self.only_first_size_smaller is None
        &&& self.only_last_size_larger_or_equal is None
        &&& self.only_last_size_larger is None
        &&& self.only_last_size_smaller_or_equal is None
        &&& self.only_last_size_smaller is None
        &&& self.only_chain_length_at_least is None
        &&& self.only_chain_length_at_most is None
        &&& self.only_chain_alive_for_at_least is None
        &&& self.only_chain_alive_for_at_most is None
        &&& self.only_group_allocations_at_least is None
        &&& self.only_group_allocations_at_most is None
        &&& self.only_group_interval_at_least is None
        &&& self.only_group_interval_at_most is None
        &&& self.only_group_leaked_allocations_at_least is None
        &&& self.only_group_leaked_allocations_at_most is None
        &&& self.only_group_max_total_usage_first_seen_at_least is None
        &&& self.only_group_max_total_usage_first_seen_at_most is None
        &&& !self.only_leaked
        &&& !self.only_chain_leaked
        &&& !self.only_temporary
        &&& !self.only_chain_temporary
        &&& !self.only_ptmalloc_mmaped
        &&& !self.only_ptmalloc_not_mmaped
        &&& !self.only_ptmalloc_from_main_arena
        &&& !self.only_ptmalloc_not_from_main_arena
        &&& !self.only_jemalloc
        &&& !self.only_not_jemalloc
        &&& self.only_with_marker is None
    }

    /// Whether the bounds on the length of backtraces are on.
    pub open spec fn length_filtered(&self) -> bool {
        self.only_backtrace_length_at_least is Some || self.only_backtrace_length_at_most is Some
    }

    /// Whether a pattern asks that some frame of a backtrace match it.
    pub open spec fn positively_patterned(&self) -> bool {
        self.only_passing_through_function is Some || self.only_passing_through_source is Some
    }

    /// Whether a pattern asks that no frame of a backtrace match it.
    pub open spec fn negatively_patterned(&self) -> bool {
        self.only_not_passing_through_function is Some || self.only_not_passing_through_source is Some
    }

    /// Whether the filter looks into backtraces: at their lengths or at
    /// their frames.
    pub open spec fn backtrace_filtered(&self) -> bool {
        self.length_filtered() || self.positively_patterned() || self.negatively_patterned()
    }

    /// Whether a frame matches each pattern that some frame must match.
    pub open spec fn frame_passes(&self, data: &Data, frame: Frame) -> bool {
        &&& self.only_passing_through_function is Some ==> pattern_hits(
            self.only_passing_through_function,
            function_text(data, frame),
        )
        &&& self.only_passing_through_source is Some ==> pattern_hits(
            self.only_passing_through_source,
            string_text(data, frame.source),
        )
    }

    /// Whether a frame matches a pattern that no frame may match.
    pub open spec fn frame_excluded(&self, data: &Data, frame: Frame) -> bool {
        ||| pattern_hits(self.only_not_passing_through_function, function_text(data, frame))
        ||| pattern_hits(self.only_not_passing_through_source, string_text(data, frame.source))
    }

    /// Whether the frames of backtrace `b` pass the patterns: some frame
    /// matches all that some frame must match, and none matches one that
    /// no frame may match.
    pub open spec fn frames_pass(&self, data: &Data, b: int) -> bool {
        let frames = backtrace_frames(data.backtraces@, data.backtraces_storage@, b);
        &&& self.positively_patterned() ==> exists|i: int|
            0 <= i < frames.len() && #[trigger] self.frame_passes(data, data.frames@[frames[i] as int])
        &&& !exists|i: int| 0 <= i < frames.len() && #[trigger] self.frame_excluded(data, data.frames@[frames[i] as int])
    }

    /// Whether backtrace `b` of the data passes the bounds on backtraces.
    pub open spec fn backtrace_passes(&self, data: &Data, b: u32) -> bool {
        &&& b < data.backtraces@.len()
        &&& or_else(self.only_backtrace_length_at_least, 0usize) <= data.backtraces@[b as int].1
        &&& data.backtraces@[b as int].1 <= or_else(self.only_backtrace_length_at_most, usize::MAX)
        &&& self.frames_pass(data, b as int)
        &&& (set_view(self.only_matching_backtraces) matches Some(set) ==> set.contains(b))
    }

    /// The backtraces that the filter lets through, if it bounds them.
    pub open spec fn backtraces_let_through(&self, data: &Data) -> Option<Set<u32>> {
        if self.backtrace_filtered() {
            Some(Set::new(|b: u32| self.backtrace_passes(data, b)))
        } else {
            set_view(self.only_matching_backtraces)
        }
    }

    /// Whether the filter can be compiled against the data: each time it
    /// gives as an offset from the start of the recording can be held, and
    /// where backtraces or groups are bounded, each backtrace has an
    /// identifier; where patterns look into frames, the backtraces are
    /// sound; each pattern it holds is a regular expression.
    pub open spec fn can_compile(&self, data: &Data) -> bool {
        &&& self.patterns_compile()
        &&& offset_fits(data.initial_timestamp, self.only_allocated_after_at_least)
        &&& offset_fits(data.initial_timestamp, self.only_allocated_until_at_most)
        &&& offset_fits(data.initial_timestamp, self.only_deallocated_after_at_least)
        &&& offset_fits(data.initial_timestamp, self.only_deallocated_until_at_most)
        &&& offset_fits(data.initial_timestamp, self.only_not_deallocated_after_at_least)
        &&& offset_fits(data.initial_timestamp, self.only_not_deallocated_until_at_most)
        &&& offset_fits(data.initial_timestamp, self.only_leaked_or_deallocated_after)
        &&& self.backtrace_filtered() ==> data.backtraces@.len() <= 0x1_0000_0000
        &&& self.positively_patterned() || self.negatively_patterned() ==> backtraces_sound(data)
        &&& self.group_bounded() ==> data.group_stats@.len() <= 0x1_0000_0000
        &&& offset_fits(data.initial_timestamp, self.only_group_max_total_usage_first_seen_at_least)
        &&& offset_fits(data.initial_timestamp, self.only_group_max_total_usage_first_seen_at_most)
        &&& self.group_bounded() ==> peak_times(data) is Some
    }

    /// Whether each pattern the filter holds is a regular expression.
    pub open spec fn patterns_compile(&self) -> bool {
        &&& optional_pattern_compiles(self.only_passing_through_function)
        &&& optional_pattern_compiles(self.only_not_passing_through_function)
        &&& optional_pattern_compiles(self.only_passing_through_source)
        &&& optional_pattern_compiles(self.only_not_passing_through_source)
    }

    /// Whether the bounds contradict each other.
    pub open spec fn contradictory(&self) -> bool {
        ||| self.only_larger == Some(u64::MAX)
        ||| self.only_smaller == Some(0u64)
        ||| self.only_first_size_larger == Some(u64::MAX)
        ||| self.only_first_size_smaller == Some(0u64)
        ||| self.only_last_size_larger == Some(u64::MAX)
        ||| self.only_last_size_smaller == Some(0u64)
        ||| self.only_leaked && self.only_temporary
        ||| self.only_ptmalloc_mmaped && self.only_ptmalloc_not_mmaped
        ||| self.only_ptmalloc_from_main_arena && self.only_ptmalloc_not_from_main_arena
        ||| self.only_jemalloc && self.only_not_jemalloc
    }

    /// The window in which allocations must have been freed, if any.
    pub open spec fn deallocation_window(&self, data: &Data) -> Option<(Timestamp, Timestamp)> {
        let initial = data.initial_timestamp;
        let last = data.last_timestamp;
        let given = if self.only_deallocated_after_at_least is Some || self.only_deallocated_until_at_most is Some {
            Some((
                at_offset(initial, self.only_deallocated_after_at_least, initial),
                at_offset(initial, self.only_deallocated_until_at_most, last),
            ))
        } else {
            None
        };
        if self.only_temporary {
            match given {
                Some(range) => Some((later_time(range.0, initial), earlier_time(range.1, last))),
                None => Some((initial, last)),
            }
        } else {
            given
        }
    }

    /// Whether any of the bounds on chains is on.
    pub open spec fn chain_bounded(&self) -> bool {
        ||| self.only_first_size_larger is Some
        ||| self.only_first_size_larger_or_equal is Some
        ||| self.only_first_size_smaller is Some
        ||| self.only_first_size_smaller_or_equal is Some
        ||| self.only_last_size_larger is Some
        ||| self.only_last_size_larger_or_equal is Some
        ||| self.only_last_size_smaller is Some
        ||| self.only_last_size_smaller_or_equal is Some
        ||| self.only_chain_length_at_least is Some
        ||| self.only_chain_length_at_most is Some
        ||| self.only_chain_alive_for_at_least is Some
        ||| self.only_chain_alive_for_at_most is Some
        ||| self.only_chain_leaked
        ||| self.only_chain_temporary
    }

    /// Whether any of the bounds on groups is on.
    pub open spec fn group_bounded(&self) -> bool {
        ||| self.only_group_allocations_at_least is Some
        ||| self.only_group_allocations_at_most is Some
        ||| self.only_group_interval_at_least is Some
        ||| self.only_group_interval_at_most is Some
        ||| self.only_group_leaked_allocations_at_least is Some
        ||| self.only_group_leaked_allocations_at_most is Some
        ||| self.only_group_max_total_usage_first_seen_at_least is Some
        ||| self.only_group_max_total_usage_first_seen_at_most is Some
    }

    /// Whether `c` is this filter compiled against the data.
    pub open spec fn compiled_into(&self, data: &Data, c: CompiledBasicFilter) -> bool {
        let initial = data.initial_timestamp;
        let last = data.last_timestamp;
        &&& c.is_impossible == self.contradictory()
        &&& set_view(c.only_backtraces) == self.backtraces_let_through(data)
        &&& set_view(c.only_not_matching_backtraces) == set_view(self.only_not_matching_backtraces)
        &&& set_view(c.only_deallocation_backtraces) == set_view(self.only_matching_deallocation_backtraces)
        &&& set_view(c.only_not_matching_deallocation_backtraces) == set_view(self.only_not_matching_deallocation_backtraces)
        &&& c.only_larger_or_equal == lower_limit(self.only_larger_or_equal, self.only_larger)
        &&& c.only_smaller_or_equal == upper_limit(self.only_smaller_or_equal, self.only_smaller)
        &&& c.only_address_at_least == or_else(self.only_address_at_least, 0u64)
        &&& c.only_address_at_most == or_else(self.only_address_at_most, u64::MAX)
        &&& c.only_allocated_after_at_least == at_offset(initial, self.only_allocated_after_at_least, initial)
        &&& c.only_allocated_until_at_most == at_offset(initial, self.only_allocated_until_at_most, last)
        &&& c.only_deallocated_between_inclusive == self.deallocation_window(data)
        &&& c.only_not_deallocated_after_at_least == (match self.only_not_deallocated_after_at_least {
            Some(o) => Some(at_offset(initial, Some(o), initial)),
            None => None::<Timestamp>,
        })
        &&& c.only_not_deallocated_until_at_most == (match self.only_not_deallocated_until_at_most {
            Some(o) => Some(at_offset(initial, Some(o), initial)),
            None => None::<Timestamp>,
        })
        &&& c.only_alive_for_at_least == or_else(self.only_alive_for_at_least, Duration(Timestamp(0)))
        &&& c.only_alive_for_at_most == self.only_alive_for_at_most
        &&& c.only_leaked_or_deallocated_after == (if self.only_leaked {
            last
        } else {
            at_offset(initial, self.only_leaked_or_deallocated_after, initial)
        })
        &&& c.enable_chain_filter == self.chain_bounded()
        &&& c.only_first_size_larger_or_equal == lower_limit(self.only_first_size_larger_or_equal, self.only_first_size_larger)
        &&& c.only_first_size_smaller_or_equal == upper_limit(self.only_first_size_smaller_or_equal, self.only_first_size_smaller)
        &&& c.only_last_size_larger_or_equal == lower_limit(self.only_last_size_larger_or_equal, self.only_last_size_larger)
        &&& c.only_last_size_smaller_or_equal == upper_limit(self.only_last_size_smaller_or_equal, self.only_last_size_smaller)
        &&& c.only_chain_length_at_least == or_else(self.only_chain_length_at_least, 0u32)
        &&& c.only_chain_length_at_most == or_else(self.only_chain_length_at_most, u32::MAX)
        &&& c.only_chain_alive_for_at_least == or_else(self.only_chain_alive_for_at_least, Duration(Timestamp(0)))
        &&& c.only_chain_alive_for_at_most == self.only_chain_alive_for_at_most
        &&& c.only_chain_leaked_or_deallocated_after == (if self.only_chain_leaked { last } else { initial })
        &&& c.only_chain_deallocated_between_inclusive == (if self.only_chain_temporary {
            Some((initial, last))
        } else {
            None::<(Timestamp, Timestamp)>
        })
        &&& c.enable_group_filter == self.group_bounded()
        &&& c.only_group_allocations_at_least == or_else(self.only_group_allocations_at_least, 0usize)
        &&& c.only_group_allocations_at_most == or_else(self.only_group_allocations_at_most, usize::MAX)
        &&& c.only_group_interval_at_least == or_else(self.only_group_interval_at_least, Duration(Timestamp(0)))
        &&& c.only_group_interval_at_most == or_else(
            self.only_group_interval_at_most,
            Duration(Timestamp(LONGEST_INTERVAL_USECS)),
        )
        &&& c.only_group_leaked_allocations_at_least == or_else(
            self.only_group_leaked_allocations_at_least,
            NumberOrFractionOfTotal::Number(0),
        )
        &&& c.only_group_leaked_allocations_at_most == or_else(
            self.only_group_leaked_allocations_at_most,
            NumberOrFractionOfTotal::Number(u64::MAX),
        )
        &&& c.only_group_max_total_usage_first_seen_at_least == at_offset(
            initial,
            self.only_group_max_total_usage_first_seen_at_least,
            initial,
        )
        &&& c.only_group_max_total_usage_first_seen_at_most == at_offset(
            initial,
            self.only_group_max_total_usage_first_seen_at_most,
            last,
        )
        &&& c.only_ptmalloc_mmaped == one_of(self.only_ptmalloc_mmaped, self.only_ptmalloc_not_mmaped)
        &&& c.only_ptmalloc_from_main_arena == one_of(
            self.only_ptmalloc_from_main_arena,
            self.only_ptmalloc_not_from_main_arena,
        )
        &&& c.only_jemalloc == one_of(self.only_jemalloc, self.only_not_jemalloc)
        &&& c.only_with_marker == self.only_with_marker
        &&& c.prepared_for(data)
    }
}

/// The text of the string that `id` names in the data's table.
fn string_text_now(data: &Data, id: Option<StringId>) -> (text: Option<String>)
    ensures
        text_view(text) == string_text(data, id),
{
    match id {
        Some(s) => data.resolve_string(s),
        None => None,
    }
}

/// Whether `pattern` is given, `text` is there, and the pattern matches it.
fn pattern_hits_now(pattern: &Option<String>, text: &Option<String>) -> (r: bool)
    ensures
        r == pattern_hits(*pattern, text_view(*text)),
{
    match (pattern, text) {
        (Some(p), Some(t)) => match pattern_matches(p.as_str(), t.as_str()) {
            Some(m) => m,
            None => false,
        },
        _ => false,
    }
}

/// Whether `pattern`, where it is given, is a regular expression.
fn optional_pattern_compiles_now(pattern: &Option<String>) -> (r: bool)
    ensures
        r == optional_pattern_compiles(*pattern),
{
    match pattern {
        Some(p) => {
            let empty = "";
            proof {
                reveal_strlit("");
            }
            pattern_matches(p.as_str(), empty).is_some()
        },
        None => true,
    }
}

/// Whether each backtrace of the data is sound.
fn backtraces_sound_now(data: &Data) -> (r: bool)
    ensures
        r == backtraces_sound(data),
{
    let n = data.backtraces.len();
    let stored = data.backtraces_storage.len();
    let known = data.frames.len();
    let mut b: usize = 0;
    while b < n
        invariant
            n == data.backtraces@.len(),
            stored == data.backtraces_storage@.len(),
            known == data.frames@.len(),
            0 <= b <= n,
            forall|c: int|
                0 <= c < b ==> {
                    &&& data.backtraces@[c].0 + data.backtraces@[c].1 <= data.backtraces_storage@.len()
                    &&& forall|i: int|
                        0 <= i < data.backtraces@[c].1 ==> #[trigger] backtrace_frames(
                            data.backtraces@,
                            data.backtraces_storage@,
                            c,
                        )[i] < data.frames@.len()
                },
        decreases n - b,
    {
        let (offset, length) = data.backtraces[b];
        if offset as u64 + length as u64 > stored as u64 {
            return false;
        }
        let start = offset as usize;
        let count = length as usize;
        let ghost frames = backtrace_frames(data.backtraces@, data.backtraces_storage@, b as int);
        let mut i: usize = 0;
        while i < count
            invariant
                frames == backtrace_frames(data.backtraces@, data.backtraces_storage@, b as int),
                (offset, length) == data.backtraces@[b as int],
                start == offset,
                count == length,
                b < n,
                n == data.backtraces@.len(),
                stored == data.backtraces_storage@.len(),
                known == data.frames@.len(),
                start + count <= stored,
                0 <= i <= count,
                forall|j: int| 0 <= j < i ==> #[trigger] frames[j] < data.frames@.len(),
            decreases count - i,
        {
            if data.backtraces_storage[start + i] >= known {
                proof {
                    assert(frames[i as int] >= data.frames@.len());
                }
                return false;
            }
            i = i + 1;
        }
        b = b + 1;
    }
    true
}

/// A value, or a default where there is none.
fn value_or<T: Copy>(value: Option<T>, default: T) -> (r: T)
    ensures
        r == or_else(value, default),
{
    match value {
        Some(v) => v,
        None => default,
    }
}

/// Whether one of two opposite flags is set.
fn which_of(yes: bool, no: bool) -> (r: Option<bool>)
    ensures
        r == one_of(yes, no),
{
    if yes {
        Some(true)
    } else if no {
        Some(false)
    } else {
        None
    }
}

/// A copy of an optional set.
fn clone_set(set: &Option<AHashSet<u32>>) -> (copy: Option<AHashSet<u32>>)
    ensures
        set_view(copy) == set_view(*set),
{
    match set {
        Some(s) => Some(backtrace_set_clone(s)),
        None => None,
    }
}

/// The least value let through by an inclusive and an exclusive lower
/// bound, and whether the exclusive one lets nothing through.
fn lower(at_least: Option<u64>, above: Option<u64>) -> (r: (u64, bool))
    ensures
        r.0 == lower_limit(at_least, above),
        r.1 == (above == Some(u64::MAX)),
{
    let base = match at_least {
        Some(v) => v,
        None => 0,
    };
    match above {
        Some(v) => if v == u64::MAX {
            (base, true)
        } else if base < v + 1 {
            (v + 1, false)
        } else {
            (base, false)
        },
        None => (base, false),
    }
}

/// The greatest value let through by an inclusive and an exclusive upper
/// bound, and whether the exclusive one lets nothing through.
fn upper(at_most: Option<u64>, below: Option<u64>) -> (r: (u64, bool))
    ensures
        r.0 == upper_limit(at_most, below),
        r.1 == (below == Some(0u64)),
{
    let base = match at_most {
        Some(v) => v,
        None => u64::MAX,
    };
    match below {
        Some(v) => if v == 0 {
            (base, true)
        } else if v - 1 < base {
            (v - 1, false)
        } else {
            (base, false)
        },
        None => (base, false),
    }
}

/// The time an offset from the start of the recording stands for.
fn offset_time(initial: Timestamp, offset: Option<Duration>, default: Timestamp) -> (t: Timestamp)
    requires
        offset_fits(initial, offset),
    ensures
        t == at_offset(initial, offset, default),
{
    match offset {
        Some(o) => Timestamp(initial.0 + o.0.0),
        None => default,
    }
}

/// The span of each backtrace's allocations.
fn group_spans(data: &Data) -> (spans: Vec<GroupSpan>)
    requires
        data.group_stats@.len() <= 0x1_0000_0000,
    ensures
        spans@.len() == data.group_stats@.len(),
        forall|b: int| 0 <= b < spans@.len() ==> #[trigger] spans@[b] == group_span(data.allocations@, b as u32),
{
    let n = data.group_stats.len();
    let mut spans: Vec<GroupSpan> = Vec::new();
    while spans.len() < n
        invariant
            spans@.len() <= n,
            forall|b: int| 0 <= b < spans@.len() ==> #[trigger] spans@[b] == empty_span(),
        decreases n - spans@.len(),
    {
        spans.push(GroupSpan { count: 0, earliest: Timestamp(u64::MAX), latest: Timestamp(0) });
    }
    let m = data.allocations.len();
    let mut i: usize = 0;
    proof {
        assert(data.allocations@.take(0) =~= Seq::<Allocation>::empty());
    }
    while i < m
        invariant
            m == data.allocations@.len(),
            n == data.group_stats@.len(),
            n <= 0x1_0000_0000,
            0 <= i <= m,
            spans@.len() == n,
            forall|b: int| 0 <= b < n ==> #[trigger] spans@[b] == group_span(data.allocations@.take(i as int), b as u32),
        decreases m - i,
    {
        let ghost before = data.allocations@.take(i as int);
        let ghost after = data.allocations@.take(i + 1);
        proof {
            assert(after.drop_last() =~= before);
            assert(after.last() == data.allocations@[i as int]);
        }
        let a = &data.allocations[i];
        let b = a.backtrace.0 as usize;
        if b < n {
            let span = spans[b];
            proof {
                lemma_group_span_bounds(before, a.backtrace.0);
                assert(span == group_span(before, a.backtrace.0));
            }
            let updated = GroupSpan {
                count: span.count + 1,
                earliest: if a.timestamp.0 < span.earliest.0 { a.timestamp } else { span.earliest },
                latest: if a.timestamp.0 > span.latest.0 { a.timestamp } else { span.latest },
            };
            spans.set(b, updated);
        }
        proof {
            assert forall|c: int| 0 <= c < n implies #[trigger] spans@[c] == group_span(after, c as u32) by {
                if c != b {
                    assert(group_span(after, c as u32) == group_span(before, c as u32));
                }
            }
        }
        i = i + 1;
    }
    proof {
        assert(data.allocations@.take(m as int) =~= data.allocations@);
    }
    spans
}

impl BasicFilter {
    /// Whether each frame passes, and whether each is excluded by, the
    /// patterns.
    fn frame_verdicts(&self, data: &Data) -> (verdicts: (Vec<bool>, Vec<bool>))
        ensures
            verdicts.0@.len() == data.frames@.len(),
            verdicts.1@.len() == data.frames@.len(),
            forall|f: int|
                0 <= f < data.frames@.len() ==> (#[trigger] verdicts.0@[f] == self.frame_passes(data, data.frames@[f])
                    && verdicts.1@[f] == self.frame_excluded(data, data.frames@[f])),
    {
        let n = data.frames.len();
        let mut passing: Vec<bool> = Vec::new();
        let mut excluded: Vec<bool> = Vec::new();
        let mut index: usize = 0;
        while index < n
            invariant
                n == data.frames@.len(),
                0 <= index <= n,
                passing@.len() == index,
                excluded@.len() == index,
                forall|f: int|
                    0 <= f < index ==> (#[trigger] passing@[f] == self.frame_passes(data, data.frames@[f])
                        && excluded@[f] == self.frame_excluded(data, data.frames@[f])),
            decreases n - index,
        {
            let frame = &data.frames[index];
            let named = if frame.function.is_some() {
                frame.function
            } else {
                frame.raw_function
            };
            let function = string_text_now(data, named);
            let source = string_text_now(data, frame.source);
            let function_passes = self.only_passing_through_function.is_none() || pattern_hits_now(
                &self.only_passing_through_function,
                &function,
            );
            let source_passes = self.only_passing_through_source.is_none() || pattern_hits_now(
                &self.only_passing_through_source,
                &source,
            );
            let hit = pattern_hits_now(&self.only_not_passing_through_function, &function) || pattern_hits_now(
                &self.only_not_passing_through_source,
                &source,
            );
            proof {
                assert((function_passes && source_passes) == self.frame_passes(data, data.frames@[index as int]));
                assert(hit == self.frame_excluded(data, data.frames@[index as int]));
            }
            let ghost before_passing = passing@;
            let ghost before_excluded = excluded@;
            passing.push(function_passes && source_passes);
            excluded.push(hit);
            index = index + 1;
            proof {
                assert forall|f: int| 0 <= f < index implies (#[trigger] passing@[f] == self.frame_passes(
                    data,
                    data.frames@[f],
                ) && excluded@[f] == self.frame_excluded(data, data.frames@[f])) by {
                    if f < index - 1 {
                        assert(passing@[f] == before_passing[f]);
                        assert(excluded@[f] == before_excluded[f]);
                    }
                }
            }
        }
        (passing, excluded)
    }

    /// Whether the frames of backtrace `b` pass the patterns, given the
    /// verdict on each frame.
    fn frames_pass_now(&self, data: &Data, b: usize, passing: &Vec<bool>, excluded: &Vec<bool>) -> (r: bool)
        requires
            b < data.backtraces@.len(),
            backtraces_sound(data),
            passing@.len() == data.frames@.len(),
            excluded@.len() == data.frames@.len(),
            forall|f: int|
                0 <= f < data.frames@.len() ==> (#[trigger] passing@[f] == self.frame_passes(data, data.frames@[f])
                    && excluded@[f] == self.frame_excluded(data, data.frames@[f])),
        ensures
            r == self.frames_pass(data, b as int),
    {
        let ghost frames = backtrace_frames(data.backtraces@, data.backtraces_storage@, b as int);
        let (offset, length) = data.backtraces[b];
        let start = offset as usize;
        let count = length as usize;
        let stored = data.backtraces_storage.len();
        proof {
            assert(offset + length <= data.backtraces_storage@.len());
            assert forall|j: int| 0 <= j < count implies #[trigger] frames[j] < data.frames@.len() by {
                assert(backtrace_frames(data.backtraces@, data.backtraces_storage@, b as int)[j] < data.frames@.len());
            }
        }
        let mut found = !(self.only_passing_through_function.is_some() || self.only_passing_through_source.is_some());
        let mut hit = false;
        let mut i: usize = 0;
        while i < count
            invariant
                frames == data.backtraces_storage@.subrange(start as int, start + count),
                stored == data.backtraces_storage@.len(),
                start + count <= stored,
                frames.len() == count,
                forall|j: int| 0 <= j < count ==> #[trigger] frames[j] < data.frames@.len(),
                passing@.len() == data.frames@.len(),
                excluded@.len() == data.frames@.len(),
                forall|f: int|
                    0 <= f < data.frames@.len() ==> (#[trigger] passing@[f] == self.frame_passes(data, data.frames@[f])
                        && excluded@[f] == self.frame_excluded(data, data.frames@[f])),
                0 <= i <= count,
                found == (!self.positively_patterned() || exists|j: int|
                    0 <= j < i && #[trigger] self.frame_passes(data, data.frames@[frames[j] as int])),
                hit == exists|j: int| 0 <= j < i && #[trigger] self.frame_excluded(data, data.frames@[frames[j] as int]),
            decreases count - i,
        {
            let frame_index = data.backtraces_storage[start + i];
            proof {
                assert(frames[i as int] == frame_index);
                assert(frame_index < data.frames@.len());
            }
            if passing[frame_index] {
                found = true;
            }
            if excluded[frame_index] {
                hit = true;
            }
            proof {
                assert(passing@[frame_index as int] == self.frame_passes(data, data.frames@[frames[i as int] as int]));
                assert(excluded@[frame_index as int] == self.frame_excluded(data, data.frames@[frames[i as int] as int]));
            }
            i = i + 1;
        }
        found && !hit
    }

    /// The backtraces that the filter lets through, if it bounds them.
    fn compile_backtrace_filter(&self, data: &Data) -> (set: Option<AHashSet<u32>>)
        requires
            self.backtrace_filtered() ==> data.backtraces@.len() <= 0x1_0000_0000,
            self.positively_patterned() || self.negatively_patterned() ==> backtraces_sound(data),
        ensures
            set_view(set) == self.backtraces_let_through(data),
    {
        let patterned = self.only_passing_through_function.is_some() || self.only_passing_through_source.is_some()
            || self.only_not_passing_through_function.is_some() || self.only_not_passing_through_source.is_some();
        if self.only_backtrace_length_at_least.is_none() && self.only_backtrace_length_at_most.is_none()
            && !patterned {
            return clone_set(&self.only_matching_backtraces);
        }
        let at_least = match self.only_backtrace_length_at_least {
            Some(v) => v,
            None => 0,
        };
        let at_most = match self.only_backtrace_length_at_most {
            Some(v) => v,
            None => usize::MAX,
        };
        let (passing, excluded) = if patterned {
            self.frame_verdicts(data)
        } else {
            (Vec::new(), Vec::new())
        };
        let n = data.backtraces.len();
        let mut matched = backtrace_set_new();
        let mut index: usize = 0;
        while index < n
            invariant
                n == data.backtraces@.len(),
                n <= 0x1_0000_0000,
                0 <= index <= n,
                self.backtrace_filtered(),
                patterned == (self.positively_patterned() || self.negatively_patterned()),
                patterned ==> backtraces_sound(data),
                patterned ==> passing@.len() == data.frames@.len(),
                patterned ==> excluded@.len() == data.frames@.len(),
                patterned ==> forall|f: int|
                    0 <= f < data.frames@.len() ==> (#[trigger] passing@[f] == self.frame_passes(data, data.frames@[f])
                        && excluded@[f] == self.frame_excluded(data, data.frames@[f])),
                at_least == or_else(self.only_backtrace_length_at_least, 0usize),
                at_most == or_else(self.only_backtrace_length_at_most, usize::MAX),
                backtrace_set(matched) == Set::new(|b: u32| b < index && self.backtrace_passes(data, b)),
            decreases n - index,
        {
            let id = index as u32;
            let length = data.backtraces[index].1 as usize;
            let mut passes = length >= at_least && length <= at_most;
            if passes {
                if patterned {
                    passes = self.frames_pass_now(data, index, &passing, &excluded);
                } else {
                    proof {
                        let frames = backtrace_frames(data.backtraces@, data.backtraces_storage@, index as int);
                        assert(!exists|i: int|
                            0 <= i < frames.len() && #[trigger] self.frame_excluded(data, data.frames@[frames[i] as int]));
                    }
                }
            }
            if passes {
                if let Some(ref only) = self.only_matching_backtraces {
                    passes = backtrace_set_contains(only, id);
                }
            }
            if passes {
                backtrace_set_insert(&mut matched, id);
            }
            index = index + 1;
            proof {
                assert(backtrace_set(matched) =~= Set::new(|b: u32| b < index && self.backtrace_passes(data, b)));
            }
        }
        proof {
            assert(Set::new(|b: u32| b < n && self.backtrace_passes(data, b)) =~= Set::new(
                |b: u32| self.backtrace_passes(data, b),
            ));
        }
        Some(matched)
    }

    fn deallocation_window_now(&self, data: &Data) -> (window: Option<(Timestamp, Timestamp)>)
        requires
            self.can_compile(data),
        ensures
            window == self.deallocation_window(data),
    {
        let initial = data.initial_timestamp;
        let last = data.last_timestamp;
        let mut window = None;
        if self.only_deallocated_after_at_least.is_some() || self.only_deallocated_until_at_most.is_some() {
            window = Some((
                offset_time(initial, self.only_deallocated_after_at_least, initial),
                offset_time(initial, self.only_deallocated_until_at_most, last),
            ));
        }
        if self.only_temporary {
            window = match window {
                Some((min, max)) => Some((
                    if min.0 < initial.0 { initial } else { min },
                    if max.0 < last.0 { max } else { last },
                )),
                None => Some((initial, last)),
            };
        }
        window
    }

    fn is_impossible_now(&self) -> (r: bool)
        ensures
            r == self.contradictory(),
    {
        self.only_larger == Some(u64::MAX) || self.only_smaller == Some(0u64) || self.only_first_size_larger == Some(
            u64::MAX,
        ) || self.only_first_size_smaller == Some(0u64) || self.only_last_size_larger == Some(u64::MAX)
            || self.only_last_size_smaller == Some(0u64) || (self.only_leaked && self.only_temporary) || (
        self.only_ptmalloc_mmaped && self.only_ptmalloc_not_mmaped) || (self.only_ptmalloc_from_main_arena
            && self.only_ptmalloc_not_from_main_arena) || (self.only_jemalloc && self.only_not_jemalloc)
    }

    fn chain_bounded_now(&self) -> (r: bool)
        ensures
            r == self.chain_bounded(),
    {
        self.only_first_size_larger.is_some() || self.only_first_size_larger_or_equal.is_some()
            || self.only_first_size_smaller.is_some() || self.only_first_size_smaller_or_equal.is_some()
            || self.only_last_size_larger.is_some() || self.only_last_size_larger_or_equal.is_some()
            || self.only_last_size_smaller.is_some() || self.only_last_size_smaller_or_equal.is_some()
            || self.only_chain_length_at_least.is_some() || self.only_chain_length_at_most.is_some()
            || self.only_chain_alive_for_at_least.is_some() || self.only_chain_alive_for_at_most.is_some()
            || self.only_chain_leaked || self.only_chain_temporary
    }

    fn group_bounded_now(&self) -> (r: bool)
        ensures
            r == self.group_bounded(),
    {
        self.only_group_allocations_at_least.is_some() || self.only_group_allocations_at_most.is_some()
            || self.only_group_interval_at_least.is_some() || self.only_group_interval_at_most.is_some()
            || self.only_group_leaked_allocations_at_least.is_some()
            || self.only_group_leaked_allocations_at_most.is_some()
            || self.only_group_max_total_usage_first_seen_at_least.is_some()
            || self.only_group_max_total_usage_first_seen_at_most.is_some()
    }

    /// The filter compiled against the data.
    #[verifier::rlimit(30)]
    pub fn compile(&self, data: &Data) -> (c: CompiledBasicFilter)
        requires
            self.can_compile(data),
        ensures
            self.compiled_into(data, c),
    {
        let initial = data.initial_timestamp;
        let last = data.last_timestamp;
        let only_backtraces = self.compile_backtrace_filter(data);
        let (only_larger_or_equal, _) = lower(self.only_larger_or_equal, self.only_larger);
        let (only_smaller_or_equal, _) = upper(self.only_smaller_or_equal, self.only_smaller);
        let (only_first_size_larger_or_equal, _) = lower(self.only_first_size_larger_or_equal, self.only_first_size_larger);
        let (only_first_size_smaller_or_equal, _) = upper(
            self.only_first_size_smaller_or_equal,
            self.only_first_size_smaller,
        );
        let (only_last_size_larger_or_equal, _) = lower(self.only_last_size_larger_or_equal, self.only_last_size_larger);
        let (only_last_size_smaller_or_equal, _) = upper(self.only_last_size_smaller_or_equal, self.only_last_size_smaller);
        let only_leaked_or_deallocated_after = if self.only_leaked {
            last
        } else {
            offset_time(initial, self.only_leaked_or_deallocated_after, initial)
        };
        let enable_group_filter = self.group_bounded_now();
        let groups = if enable_group_filter {
            group_spans(data)
        } else {
            Vec::new()
        };
        let peaks = if enable_group_filter {
            match usage_peaks(data) {
                Some(peaks) => peaks,
                None => Vec::new(),
            }
        } else {
            Vec::new()
        };
        let only_not_deallocated_after_at_least = match self.only_not_deallocated_after_at_least {
            Some(o) => Some(offset_time(initial, Some(o), initial)),
            None => None,
        };
        let only_not_deallocated_until_at_most = match self.only_not_deallocated_until_at_most {
            Some(o) => Some(offset_time(initial, Some(o), initial)),
            None => None,
        };
        let zero = Duration::from_secs(0);
        CompiledBasicFilter {
            is_impossible: self.is_impossible_now(),
            only_backtraces,
            only_not_matching_backtraces: clone_set(&self.only_not_matching_backtraces),
            only_deallocation_backtraces: clone_set(&self.only_matching_deallocation_backtraces),
            only_not_matching_deallocation_backtraces: clone_set(&self.only_not_matching_deallocation_backtraces),
            only_larger_or_equal,
            only_smaller_or_equal,
            only_address_at_least: value_or(self.only_address_at_least, 0),
            only_address_at_most: value_or(self.only_address_at_most, u64::MAX),
            only_allocated_after_at_least: offset_time(initial, self.only_allocated_after_at_least, initial),
            only_allocated_until_at_most: offset_time(initial, self.only_allocated_until_at_most, last),
            only_deallocated_between_inclusive: self.deallocation_window_now(data),
            only_not_deallocated_after_at_least,
            only_not_deallocated_until_at_most,
            only_alive_for_at_least: value_or(self.only_alive_for_at_least, zero),
            only_alive_for_at_most: self.only_alive_for_at_most,
            only_leaked_or_deallocated_after,
            enable_chain_filter: self.chain_bounded_now(),
            only_first_size_larger_or_equal,
            only_first_size_smaller_or_equal,
            only_last_size_larger_or_equal,
            only_last_size_smaller_or_equal,
            only_chain_length_at_least: value_or(self.only_chain_length_at_least, 0),
            only_chain_length_at_most: value_or(self.only_chain_length_at_most, u32::MAX),
            only_chain_alive_for_at_least: value_or(self.only_chain_alive_for_at_least, zero),
            only_chain_alive_for_at_most: self.only_chain_alive_for_at_most,
            only_chain_leaked_or_deallocated_after: if self.only_chain_leaked { last } else { initial },
            only_chain_deallocated_between_inclusive: if self.only_chain_temporary {
                Some((initial, last))
            } else {
                None
            },
            enable_group_filter,
            only_group_allocations_at_least: value_or(self.only_group_allocations_at_least, 0),
            only_group_allocations_at_most: value_or(self.only_group_allocations_at_most, usize::MAX),
            only_group_interval_at_least: value_or(self.only_group_interval_at_least, zero),
            only_group_interval_at_most: value_or(
                self.only_group_interval_at_most,
                Duration(Timestamp(LONGEST_INTERVAL_USECS)),
            ),
            only_group_leaked_allocations_at_least: value_or(
                self.only_group_leaked_allocations_at_least,
                NumberOrFractionOfTotal::Number(0),
            ),
            only_group_leaked_allocations_at_most: value_or(
                self.only_group_leaked_allocations_at_most,
                NumberOrFractionOfTotal::Number(u64::MAX),
            ),
            only_ptmalloc_mmaped: which_of(self.only_ptmalloc_mmaped, self.only_ptmalloc_not_mmaped),
            only_ptmalloc_from_main_arena: which_of(
                self.only_ptmalloc_from_main_arena,
                self.only_ptmalloc_not_from_main_arena,
            ),
            only_jemalloc: which_of(self.only_jemalloc, self.only_not_jemalloc),
            only_with_marker: self.only_with_marker,
            groups,
            peaks,
            only_group_max_total_usage_first_seen_at_least: offset_time(
                initial,
                self.only_group_max_total_usage_first_seen_at_least,
                initial,
            ),
            only_group_max_total_usage_first_seen_at_most: offset_time(
                initial,
                self.only_group_max_total_usage_first_seen_at_most,
                last,
            ),
        }
    }
}

impl CompiledBasicFilter {
    fn chain_known_now(data: &Data, a: &Allocation) -> (r: bool)
        ensures
            r == chain_known(data, *a),
    {
        match a.first_allocation_in_chain {
            None => true,
            Some(first_in_chain) => match data.get_chain_by_first_allocation(first_in_chain) {
                None => false,
                Some(chain) => {
                    let count = data.allocations.len() as u64;
                    if chain.first.0 >= count || chain.last.0 >= count {
                        return false;
                    }
                    let first = data.get_allocation(chain.first);
                    let last = data.get_allocation(chain.last);
                    let end = match last.deallocation {
                        Some(ref deallocation) => deallocation.timestamp,
                        None => data.last_timestamp,
                    };
                    first.timestamp.0 <= end.0
                },
            },
        }
    }

    fn group_known_now(&self, data: &Data, a: &Allocation) -> (r: bool)
        requires
            self.prepared_for(data),
            self.enable_group_filter,
        ensures
            r == group_known(data, *a),
    {
        let index = a.backtrace.0 as usize;
        if index >= data.group_stats.len() {
            return false;
        }
        let stats = data.get_group_statistics(a.backtrace);
        self.groups[index].count > 0 && stats.free_count <= stats.alloc_count
    }

    /// Whether `allocation` can be matched against the filter.
    pub fn can_match_now(&self, data: &Data, allocation: &Allocation) -> (r: bool)
        requires
            self.prepared_for(data),
        ensures
            r == self.can_match(data, *allocation),
    {
        if self.is_impossible || !self.passes_first_now(allocation) {
            return true;
        }
        let end = match allocation.deallocation {
            Some(ref deallocation) => deallocation.timestamp,
            None => data.last_timestamp,
        };
        if allocation.timestamp.0 > end.0 {
            return false;
        }
        if !self.passes_lifetime_now(data, allocation) {
            return true;
        }
        if self.enable_chain_filter {
            if !Self::chain_known_now(data, allocation) {
                return false;
            }
            if !self.passes_chain_now(data, allocation) {
                return true;
            }
        }
        if self.enable_group_filter {
            return self.group_known_now(data, allocation);
        }
        true
    }
}

impl BasicFilter {
    /// The filter compiled against the data, or `None` where it cannot be.
    pub fn compile_checked(&self, data: &Data) -> (c: Option<CompiledBasicFilter>)
        ensures
            c is Some <==> self.can_compile(data),
            c matches Some(cf) ==> self.compiled_into(data, cf),
    {
        if self.can_compile_now(data) {
            Some(self.compile(data))
        } else {
            None
        }
    }

    /// Whether the filter can be compiled against the data.
    pub fn can_compile_now(&self, data: &Data) -> (r: bool)
        ensures
            r == self.can_compile(data),
    {
        let initial = data.initial_timestamp.0;
        let fits = |offset: Option<Duration>| -> (r: bool)
            ensures
                r == offset_fits(Timestamp(initial), offset),
            {
                match offset {
                    Some(o) => o.0.0 <= u64::MAX - initial,
                    None => true,
                }
            };
        let patterned = self.only_passing_through_function.is_some() || self.only_passing_through_source.is_some()
            || self.only_not_passing_through_function.is_some() || self.only_not_passing_through_source.is_some();
        let length_bounded = self.only_backtrace_length_at_least.is_some() || self.only_backtrace_length_at_most.is_some()
            || patterned;
        if !(optional_pattern_compiles_now(&self.only_passing_through_function) && optional_pattern_compiles_now(
            &self.only_not_passing_through_function,
        ) && optional_pattern_compiles_now(&self.only_passing_through_source) && optional_pattern_compiles_now(
            &self.only_not_passing_through_source,
        )) {
            return false;
        }
        if patterned && !backtraces_sound_now(data) {
            return false;
        }
        let group_bounded = self.group_bounded_now();
        if group_bounded && usage_peaks(data).is_none() {
            return false;
        }
        fits(self.only_group_max_total_usage_first_seen_at_least) && fits(
            self.only_group_max_total_usage_first_seen_at_most,
        ) && fits(self.only_allocated_after_at_least) && fits(self.only_allocated_until_at_most) && fits(
            self.only_deallocated_after_at_least,
        ) && fits(self.only_deallocated_until_at_most) && fits(self.only_not_deallocated_after_at_least) && fits(
            self.only_not_deallocated_until_at_most,
        ) && fits(self.only_leaked_or_deallocated_after) && (!length_bounded || data.backtraces.len() as u64
            <= 0x1_0000_0000) && (!group_bounded || data.group_stats.len() as u64 <= 0x1_0000_0000)
    }
}

/// A filter: a basic one, or two combined, or one negated.
pub enum Filter {
    Basic(BasicFilter),
    And(Box<Filter>, Box<Filter>),
    Or(Box<Filter>, Box<Filter>),
    Not(Box<Filter>),
}

/// A filter compiled against loaded data.
pub enum CompiledFilter {
    Basic(CompiledBasicFilter),
    And(Box<CompiledFilter>, Box<CompiledFilter>),
    Or(Box<CompiledFilter>, Box<CompiledFilter>),
    Not(Box<CompiledFilter>),
}

impl CompiledFilter {
    /// Whether an allocation passes the filter.
    pub open spec fn accepts(&self, data: &Data, a: Allocation) -> bool
        decreases self,
    {
        match self {
            CompiledFilter::Basic(f) => f.accepts(data, a),
            CompiledFilter::And(lhs, rhs) => lhs.accepts(data, a) && rhs.accepts(data, a),
            CompiledFilter::Or(lhs, rhs) => lhs.accepts(data, a) || rhs.accepts(data, a),
            CompiledFilter::Not(f) => !f.accepts(data, a),
        }
    }

    /// Whether each basic filter in it was made for the data.
    pub open spec fn prepared_for(&self, data: &Data) -> bool
        decreases self,
    {
        match self {
            CompiledFilter::Basic(f) => f.prepared_for(data),
            CompiledFilter::And(lhs, rhs) => lhs.prepared_for(data) && rhs.prepared_for(data),
            CompiledFilter::Or(lhs, rhs) => lhs.prepared_for(data) && rhs.prepared_for(data),
            CompiledFilter::Not(f) => f.prepared_for(data),
        }
    }

    /// Whether an allocation can be matched: each basic filter that is
    /// looked at can match it; the right side of `and` is looked at only
    /// where the left one passes, and that of `or` only where it fails.
    pub open spec fn can_match(&self, data: &Data, a: Allocation) -> bool
        decreases self,
    {
        match self {
            CompiledFilter::Basic(f) => f.can_match(data, a),
            CompiledFilter::And(lhs, rhs) => lhs.can_match(data, a) && (lhs.accepts(data, a) ==> rhs.can_match(data, a)),
            CompiledFilter::Or(lhs, rhs) => lhs.can_match(data, a) && (!lhs.accepts(data, a) ==> rhs.can_match(data, a)),
            CompiledFilter::Not(f) => f.can_match(data, a),
        }
    }

    /// Whether `allocation` passes the filter.
    pub fn try_match(&self, data: &Data, allocation: &Allocation) -> (r: bool)
        requires
            self.prepared_for(data),
            self.can_match(data, *allocation),
        ensures
            r == self.accepts(data, *allocation),
        decreases self,
    {
        match self {
            CompiledFilter::Basic(filter) => filter.try_match(data, allocation),
            CompiledFilter::And(lhs, rhs) => lhs.try_match(data, allocation) && rhs.try_match(data, allocation),
            CompiledFilter::Or(lhs, rhs) => lhs.try_match(data, allocation) || rhs.try_match(data, allocation),
            CompiledFilter::Not(filter) => !filter.try_match(data, allocation),
        }
    }

    /// Whether `allocation` can be matched against the filter.
    pub fn can_match_now(&self, data: &Data, allocation: &Allocation) -> (r: bool)
        requires
            self.prepared_for(data),
        ensures
            r == self.can_match(data, *allocation),
        decreases self,
    {
        match self {
            CompiledFilter::Basic(filter) => filter.can_match_now(data, allocation),
            CompiledFilter::And(lhs, rhs) => lhs.can_match_now(data, allocation) && (!lhs.try_match(data, allocation)
                || rhs.can_match_now(data, allocation)),
            CompiledFilter::Or(lhs, rhs) => lhs.can_match_now(data, allocation) && (lhs.try_match(data, allocation)
                || rhs.can_match_now(data, allocation)),
            CompiledFilter::Not(filter) => filter.can_match_now(data, allocation),
        }
    }
}

impl Filter {
    /// Whether each basic filter in it can be compiled against the data.
    pub open spec fn can_compile(&self, data: &Data) -> bool
        decreases self,
    {
        match self {
            Filter::Basic(f) => f.can_compile(data),
            Filter::And(lhs, rhs) => lhs.can_compile(data) && rhs.can_compile(data),
            Filter::Or(lhs, rhs) => lhs.can_compile(data) && rhs.can_compile(data),
            Filter::Not(f) => f.can_compile(data),
        }
    }

    /// Whether `c` is this filter compiled against the data: the same
    /// combination, with each basic filter compiled.
    pub open spec fn compiled_into(&self, data: &Data, c: CompiledFilter) -> bool
        decreases self,
    {
        match self {
            Filter::Basic(f) => c matches CompiledFilter::Basic(cf) && f.compiled_into(data, cf),
            Filter::And(lhs, rhs) => c matches CompiledFilter::And(cl, cr) && lhs.compiled_into(data, *cl)
                && rhs.compiled_into(data, *cr),
            Filter::Or(lhs, rhs) => c matches CompiledFilter::Or(cl, cr) && lhs.compiled_into(data, *cl)
                && rhs.compiled_into(data, *cr),
            Filter::Not(f) => c matches CompiledFilter::Not(cf) && f.compiled_into(data, *cf),
        }
    }

    /// The filter compiled against the data.
    pub fn compile(&self, data: &Data) -> (c: CompiledFilter)
        requires
            self.can_compile(data),
        ensures
            self.compiled_into(data, c),
            c.prepared_for(data),
        decreases self,
    {
        match self {
            Filter::Basic(filter) => CompiledFilter::Basic(filter.compile(data)),
            Filter::And(lhs, rhs) => CompiledFilter::And(Box::new(lhs.compile(data)), Box::new(rhs.compile(data))),
            Filter::Or(lhs, rhs) => CompiledFilter::Or(Box::new(lhs.compile(data)), Box::new(rhs.compile(data))),
            Filter::Not(filter) => CompiledFilter::Not(Box::new(filter.compile(data))),
        }
    }

    /// The filter compiled against the data, or `None` where it cannot be.
    pub fn compile_checked(&self, data: &Data) -> (c: Option<CompiledFilter>)
        ensures
            c is Some <==> self.can_compile(data),
            c matches Some(cf) ==> self.compiled_into(data, cf) && cf.prepared_for(data),
    {
        if self.can_compile_now(data) {
            Some(self.compile(data))
        } else {
            None
        }
    }

    /// Whether the filter can be compiled against the data.
    pub fn can_compile_now(&self, data: &Data) -> (r: bool)
        ensures
            r == self.can_compile(data),
        decreases self,
    {
        match self {
            Filter::Basic(filter) => filter.can_compile_now(data),
            Filter::And(lhs, rhs) => lhs.can_compile_now(data) && rhs.can_compile_now(data),
            Filter::Or(lhs, rhs) => lhs.can_compile_now(data) && rhs.can_compile_now(data),
            Filter::Not(filter) => filter.can_compile_now(data),
        }
    }
}

/// A filter whose bounds contradict each other lets nothing through.
pub proof fn lemma_contradictory_filter_passes_nothing(
    filter: BasicFilter,
    data: &Data,
    compiled: CompiledBasicFilter,
    a: Allocation,
)
    requires
        filter.compiled_into(data, compiled),
        filter.contradictory(),
    ensures
        !compiled.accepts(data, a),
{
}

/// A filter for leaked allocations lets through only allocations that were
/// not freed before the end of the recording.
pub proof fn lemma_leaked_filter_passes_only_live(
    filter: BasicFilter,
    data: &Data,
    compiled: CompiledBasicFilter,
    a: Allocation,
)
    requires
        filter.compiled_into(data, compiled),
        filter.only_leaked,
        compiled.accepts(data, a),
    ensures
        a.deallocation matches Some(d) ==> d.timestamp.0 > data.last_timestamp.0,
{
}

/// A filter for temporary allocations lets through only allocations that
/// were freed within the recording.
pub proof fn lemma_temporary_filter_passes_only_freed(
    filter: BasicFilter,
    data: &Data,
    compiled: CompiledBasicFilter,
    a: Allocation,
)
    requires
        filter.compiled_into(data, compiled),
        filter.only_temporary,
        compiled.accepts(data, a),
    ensures
        a.deallocation matches Some(d) && data.initial_timestamp.0 <= d.timestamp.0 <= data.last_timestamp.0,
{
}


/// A basic filter compiled twice against the same data lets the same
/// allocations through.
pub proof fn lemma_basic_compiled_alike(
    f: BasicFilter,
    data: &Data,
    c1: CompiledBasicFilter,
    c2: CompiledBasicFilter,
    a: Allocation,
)
    requires
        f.compiled_into(data, c1),
        f.compiled_into(data, c2),
    ensures
        c1.accepts(data, a) == c2.accepts(data, a),
{
}

/// A filter compiled twice against the same data lets the same
/// allocations through.
pub proof fn lemma_compiled_alike(f: Filter, data: &Data, c1: CompiledFilter, c2: CompiledFilter, a: Allocation)
    requires
        f.compiled_into(data, c1),
        f.compiled_into(data, c2),
    ensures
        c1.accepts(data, a) == c2.accepts(data, a),
    decreases f,
{
    match (f, c1, c2) {
        (Filter::Basic(b), CompiledFilter::Basic(b1), CompiledFilter::Basic(b2)) => {
            lemma_basic_compiled_alike(b, data, b1, b2, a);
        },
        (Filter::And(lhs, rhs), CompiledFilter::And(l1, r1), CompiledFilter::And(l2, r2)) => {
            lemma_compiled_alike(*lhs, data, *l1, *l2, a);
            lemma_compiled_alike(*rhs, data, *r1, *r2, a);
        },
        (Filter::Or(lhs, rhs), CompiledFilter::Or(l1, r1), CompiledFilter::Or(l2, r2)) => {
            lemma_compiled_alike(*lhs, data, *l1, *l2, a);
            lemma_compiled_alike(*rhs, data, *r1, *r2, a);
        },
        (Filter::Not(inner), CompiledFilter::Not(i1), CompiledFilter::Not(i2)) => {
            lemma_compiled_alike(*inner, data, *i1, *i2, a);
        },
        _ => {},
    }
}

/// Compiled, `f and g` lets through what both compiled parts let through,
/// `f or g` what either does, and `not f` what the compiled `f` does not.
pub proof fn lemma_combinators(
    f: Filter,
    g: Filter,
    data: &Data,
    cf: CompiledFilter,
    cg: CompiledFilter,
    both: CompiledFilter,
    either: CompiledFilter,
    negated: CompiledFilter,
    a: Allocation,
)
    requires
        f.compiled_into(data, cf),
        g.compiled_into(data, cg),
        Filter::And(Box::new(f), Box::new(g)).compiled_into(data, both),
        Filter::Or(Box::new(f), Box::new(g)).compiled_into(data, either),
        Filter::Not(Box::new(f)).compiled_into(data, negated),
    ensures
        both.accepts(data, a) == (cf.accepts(data, a) && cg.accepts(data, a)),
        either.accepts(data, a) == (cf.accepts(data, a) || cg.accepts(data, a)),
        negated.accepts(data, a) == !cf.accepts(data, a),
{
    match both {
        CompiledFilter::And(l, r) => {
            lemma_compiled_alike(f, data, cf, *l, a);
            lemma_compiled_alike(g, data, cg, *r, a);
        },
        _ => {},
    }
    match either {
        CompiledFilter::Or(l, r) => {
            lemma_compiled_alike(f, data, cf, *l, a);
            lemma_compiled_alike(g, data, cg, *r, a);
        },
        _ => {},
    }
    match negated {
        CompiledFilter::Not(n) => {
            lemma_compiled_alike(f, data, cf, *n, a);
        },
        _ => {},
    }
}

/// The bounds "larger than `l`" and "smaller than `s`" are strict: added to
/// a filter of no other bound, they let through what it lets through of
/// sizes strictly between them.
pub proof fn lemma_strict_size_bounds(
    unset: BasicFilter,
    bounded: BasicFilter,
    data: &Data,
    c_unset: CompiledBasicFilter,
    c_bounded: CompiledBasicFilter,
    a: Allocation,
    l: u64,
    s: u64,
)
    requires
        unset.is_unset(),
        bounded == (BasicFilter { only_larger: Some(l), only_smaller: Some(s), ..unset }),
        l < u64::MAX,
        s > 0,
        unset.compiled_into(data, c_unset),
        bounded.compiled_into(data, c_bounded),
    ensures
        c_bounded.accepts(data, a) == (l < a.size && a.size < s && c_unset.accepts(data, a)),
{
}

} // verus!
