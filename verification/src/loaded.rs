//! What a loaded recording holds: the allocations with their chains, the
//! backtraces and frames, the statistics of each backtrace, and the
//! allocations and operations in the orders that the analysis walks them.

use vstd::prelude::*;
use ahash::AHashMap;
use crate::timestamp::Timestamp;
use crate::ids::{AllocationId, OperationId, BacktraceId, CodePointer, operation_kind_of, operation_target_of};
use crate::data::{Allocation, AllocationChain, GroupStatistics, Mallopt, MmapOperation};
use crate::event::DataId;
use crate::frame::Frame;
use crate::strings::{StringTable, table_strings, table_resolve};
use crate::ids::StringId;
use crate::chains::chain_root;
use crate::search::within_bounds;
use crate::index_maps::{chains_by_first, chains_by_first_get};
use crate::sorting::{stably_sorted, sort_by_key, keys_ascending, lemma_stably_sorted};

verus! {

/// The allocations, each as its key and its position.
pub open spec fn keyed_by(allocs: Seq<Allocation>, key: spec_fn(Allocation) -> u64) -> Seq<(u64, u64)> {
    Seq::new(allocs.len(), |i: int| (key(allocs[i]), i as u64))
}

/// The key by which allocations are ordered in time.
pub open spec fn time_key() -> spec_fn(Allocation) -> u64 {
    |a: Allocation| a.timestamp.0
}

/// The key by which allocations are ordered in memory.
pub open spec fn address_key() -> spec_fn(Allocation) -> u64 {
    |a: Allocation| a.pointer
}

/// The key by which allocations are ordered by size.
pub open spec fn size_key() -> spec_fn(Allocation) -> u64 {
    |a: Allocation| a.size
}

/// The allocations of sorted entries.
pub open spec fn ids_of(entries: Seq<(u64, u64)>) -> Seq<AllocationId> {
    entries.map_values(|e: (u64, u64)| AllocationId(e.1))
}

/// The allocations ordered by `key`, those with equal keys in the order in
/// which they were made.
pub open spec fn ordered_by(allocs: Seq<Allocation>, key: spec_fn(Allocation) -> u64) -> Seq<AllocationId> {
    ids_of(stably_sorted(keyed_by(allocs, key)))
}

/// The operations, each as its time and its raw value.
pub open spec fn operation_entries(ops: Seq<(Timestamp, OperationId)>) -> Seq<(u64, u64)> {
    ops.map_values(|o: (Timestamp, OperationId)| (o.0.0, o.1.0))
}

/// The operations ordered in time, those at the same time in the order in
/// which they happened.
pub open spec fn operations_in_time(ops: Seq<(Timestamp, OperationId)>) -> Seq<OperationId> {
    stably_sorted(operation_entries(ops)).map_values(|e: (u64, u64)| OperationId(e.1))
}

/// How many times `f` occurs in `s`.
pub open spec fn occurrences(s: Seq<usize>, f: int) -> nat
    decreases s.len(),
{
    if s.len() == 0 {
        0
    } else {
        occurrences(s.drop_last(), f) + if s.last() == f {
            1nat
        } else {
            0nat
        }
    }
}

/// The frames of backtrace `b`.
pub open spec fn backtrace_frames(backtraces: Seq<(u32, u32)>, storage: Seq<usize>, b: int) -> Seq<usize> {
    storage.subrange(backtraces[b].0 as int, backtraces[b].0 + backtraces[b].1)
}

/// How many allocations the first `b` backtraces made through frame `f`,
/// counted once for each place that the frame has in a backtrace.
pub open spec fn frame_allocations(
    backtraces: Seq<(u32, u32)>,
    storage: Seq<usize>,
    stats: Seq<GroupStatistics>,
    f: int,
    b: int,
) -> nat
    decreases b,
{
    if b <= 0 {
        0
    } else {
        frame_allocations(backtraces, storage, stats, f, b - 1) + occurrences(
            backtrace_frames(backtraces, storage, b - 1),
            f,
        ) * (stats[b - 1].alloc_count as nat)
    }
}

/// The frames, each with the allocations made through it added to its
/// count.
pub open spec fn counted_frames(
    frames: Seq<Frame>,
    backtraces: Seq<(u32, u32)>,
    storage: Seq<usize>,
    stats: Seq<GroupStatistics>,
) -> Seq<Frame> {
    Seq::new(
        frames.len(),
        |f: int|
            Frame {
                count: (frames[f].count + frame_allocations(
                    backtraces,
                    storage,
                    stats,
                    f,
                    backtraces.len() as int,
                )) as u64,
                ..frames[f]
            },
    )
}

/// Whether the count of every frame can take the allocations made through
/// it.
pub open spec fn frame_counts_fit(
    frames: Seq<Frame>,
    backtraces: Seq<(u32, u32)>,
    storage: Seq<usize>,
    stats: Seq<GroupStatistics>,
) -> bool {
    forall|f: int|
        #![trigger frames[f]]
        0 <= f < frames.len() ==> frames[f].count + frame_allocations(
            backtraces,
            storage,
            stats,
            f,
            backtraces.len() as int,
        ) <= u64::MAX
}

/// The latest time at which any backtrace allocated, or `default` where
/// there is no backtrace.
pub open spec fn latest_of_groups(stats: Seq<GroupStatistics>, default: Timestamp) -> Timestamp
    decreases stats.len(),
{
    if stats.len() == 0 {
        default
    } else if stats.len() == 1 {
        stats[0].last_allocation
    } else {
        let rest = latest_of_groups(stats.drop_last(), default);
        if stats.last().last_allocation.0 > rest.0 {
            stats.last().last_allocation
        } else {
            rest
        }
    }
}

/// A loaded recording.
pub struct Data {
    pub id: DataId,
    pub initial_timestamp: Timestamp,
    pub last_timestamp: Timestamp,
    /// The path of the executable, as the recording holds it.
    pub executable: Vec<u8>,
    pub architecture: String,
    pub pointer_size: u64,
    /// The operations, in time order.
    pub operations: Vec<OperationId>,
    pub allocations: Vec<Allocation>,
    pub sorted_by_timestamp: Vec<AllocationId>,
    pub sorted_by_address: Vec<AllocationId>,
    pub sorted_by_size: Vec<AllocationId>,
    pub frames: Vec<Frame>,
    /// Where each backtrace's frames start in the storage, and how many.
    pub backtraces: Vec<(u32, u32)>,
    pub backtraces_storage: Vec<usize>,
    pub total_allocated: u64,
    pub total_allocated_count: u64,
    pub total_freed: u64,
    pub total_freed_count: u64,
    pub mallopts: Vec<Mallopt>,
    pub mmap_operations: Vec<MmapOperation>,
    pub maximum_backtrace_depth: u32,
    pub group_stats: Vec<GroupStatistics>,
    /// The chains of reallocations, by their first allocation.
    pub chains: AHashMap<u64, AllocationChain>,
    /// The strings that the frames name.
    pub strings: StringTable,
}

impl Data {
    /// The chains of reallocations, by their first allocation.
    pub open spec fn chains(&self) -> Map<u64, AllocationChain> {
        chains_by_first(self.chains)
    }

    /// Assembles loaded data.
    pub fn new(
        id: DataId,
        initial_timestamp: Timestamp,
        last_timestamp: Timestamp,
        executable: Vec<u8>,
        architecture: String,
        pointer_size: u64,
        operations: Vec<OperationId>,
        allocations: Vec<Allocation>,
        sorted_by_timestamp: Vec<AllocationId>,
        sorted_by_address: Vec<AllocationId>,
        sorted_by_size: Vec<AllocationId>,
        frames: Vec<Frame>,
        backtraces: Vec<(u32, u32)>,
        backtraces_storage: Vec<usize>,
        totals: (u64, u64, u64, u64),
        mallopts: Vec<Mallopt>,
        mmap_operations: Vec<MmapOperation>,
        maximum_backtrace_depth: u32,
        group_stats: Vec<GroupStatistics>,
        chains: AHashMap<u64, AllocationChain>,
        strings: StringTable,
    ) -> (data: Data)
        ensures
            data.id == id,
            data.initial_timestamp == initial_timestamp,
            data.last_timestamp == last_timestamp,
            data.executable == executable,
            data.architecture == architecture,
            data.pointer_size == pointer_size,
            data.operations == operations,
            data.allocations == allocations,
            data.sorted_by_timestamp == sorted_by_timestamp,
            data.sorted_by_address == sorted_by_address,
            data.sorted_by_size == sorted_by_size,
            data.frames == frames,
            data.backtraces == backtraces,
            data.backtraces_storage == backtraces_storage,
            data.total_allocated == totals.0,
            data.total_allocated_count == totals.1,
            data.total_freed == totals.2,
            data.total_freed_count == totals.3,
            data.mallopts == mallopts,
            data.mmap_operations == mmap_operations,
            data.maximum_backtrace_depth == maximum_backtrace_depth,
            data.group_stats == group_stats,
            data.chains() == chains_by_first(chains),
            table_strings(data.strings) == table_strings(strings),
    {
        Data {
            id,
            initial_timestamp,
            last_timestamp,
            executable,
            architecture,
            pointer_size,
            operations,
            allocations,
            sorted_by_timestamp,
            sorted_by_address,
            sorted_by_size,
            frames,
            backtraces,
            backtraces_storage,
            total_allocated: totals.0,
            total_allocated_count: totals.1,
            total_freed: totals.2,
            total_freed_count: totals.3,
            mallopts,
            mmap_operations,
            maximum_backtrace_depth,
            group_stats,
            chains,
            strings,
        }
    }

    /// The string that `id` names, if the table holds it.
    pub fn resolve_string(&self, id: StringId) -> (string: Option<String>)
        ensures
            string is Some <==> 1 <= id.0 <= table_strings(self.strings).len(),
            string matches Some(t) ==> t@ == table_strings(self.strings)[id.0 - 1],
    {
        if id.0 == 0 {
            return None;
        }
        table_resolve(&self.strings, (id.0 - 1) as usize)
    }

    pub fn get_allocation(&self, id: AllocationId) -> (allocation: &Allocation)
        requires
            id.0 < self.allocations@.len(),
        ensures
            *allocation == self.allocations@[id.0 as int],
    {
        let count = self.allocations.len();
        proof {
            assert(id.0 < count);
        }
        &self.allocations[id.0 as usize]
    }

    /// The chain that starts with `id`, if there is one.
    pub fn get_chain_by_first_allocation(&self, id: AllocationId) -> (chain: Option<AllocationChain>)
        ensures
            chain == (if self.chains().contains_key(id.0) {
                Some(self.chains()[id.0])
            } else {
                None::<AllocationChain>
            }),
    {
        chains_by_first_get(&self.chains, id.0)
    }

    /// The chain that `id` lies on: the one that its first allocation
    /// starts, or else `id` alone.
    pub fn get_chain_by_any_allocation(&self, id: AllocationId) -> (chain: AllocationChain)
        requires
            id.0 < self.allocations@.len(),
            self.allocations@[id.0 as int].first_allocation_in_chain matches Some(first)
                ==> self.chains().contains_key(first.0),
        ensures
            chain == (match self.allocations@[id.0 as int].first_allocation_in_chain {
                Some(first) => self.chains()[first.0],
                None => AllocationChain { first: id, last: id, length: 1 },
            }),
    {
        let count = self.allocations.len();
        proof {
            assert(id.0 < count);
        }
        let allocation = &self.allocations[id.0 as usize];
        match allocation.first_allocation_in_chain {
            Some(first) => chains_by_first_get(&self.chains, first.0).unwrap(),
            None => AllocationChain { first: id, last: id, length: 1 },
        }
    }

    pub fn get_group_statistics(&self, id: BacktraceId) -> (stats: &GroupStatistics)
        requires
            id.0 < self.group_stats@.len(),
        ensures
            *stats == self.group_stats@[id.0 as int],
    {
        let count = self.group_stats.len();
        proof {
            assert(id.0 < count);
        }
        &self.group_stats[id.0 as usize]
    }

    /// The frames of a backtrace, innermost first.
    pub fn get_frame_ids(&self, id: BacktraceId) -> (frames: &[usize])
        requires
            id.0 < self.backtraces@.len(),
            self.backtraces@[id.0 as int].0 + self.backtraces@[id.0 as int].1 <= self.backtraces_storage@.len(),
        ensures
            frames@ == backtrace_frames(self.backtraces@, self.backtraces_storage@, id.0 as int),
    {
        let (offset, length) = self.backtraces[id.0 as usize];
        let stored = self.backtraces_storage.len();
        proof {
            assert(offset + length <= stored);
        }
        let start = offset as usize;
        let end = offset as usize + length as usize;
        slice_of(&self.backtraces_storage, start, end)
    }

    pub fn get_frame(&self, id: usize) -> (frame: &Frame)
        requires
            id < self.frames@.len(),
        ensures
            *frame == self.frames@[id as int],
    {
        &self.frames[id]
    }

    /// When an operation happened: when its allocation was made, or, for a
    /// deallocation, when the allocation was freed.
    pub fn get_timestamp(&self, op: OperationId) -> (timestamp: Timestamp)
        requires
            operation_target_of(op.0) < self.allocations@.len(),
            operation_kind_of(op.0) != 0 && operation_kind_of(op.0) != 2 ==> self.allocations@[operation_target_of(
                op.0,
            ) as int].deallocation is Some,
        ensures
            timestamp == (if operation_kind_of(op.0) == 0 || operation_kind_of(op.0) == 2 {
                self.allocations@[operation_target_of(op.0) as int].timestamp
            } else {
                self.allocations@[operation_target_of(op.0) as int].deallocation.unwrap().timestamp
            }),
    {
        let allocation = self.get_allocation(op.id());
        if op.is_allocation() || op.is_reallocation() {
            allocation.timestamp
        } else {
            allocation.deallocation.as_ref().unwrap().timestamp
        }
    }

    /// The number of distinct backtraces.
    pub fn unique_backtrace_count(&self) -> (count: usize)
        ensures
            count == self.backtraces@.len(),
    {
        self.backtraces.len()
    }
}

/// The frames of a backtrace, outermost first, without a frame at the same
/// address as the one before it (the inlined frames of one call).
pub open spec fn non_inline_path(frames: Seq<Frame>, path: Seq<usize>) -> Seq<usize>
    decreases path.len(),
{
    if path.len() == 0 {
        path
    } else {
        let rest = non_inline_path(frames, path.drop_last());
        if path.len() >= 2 && frames[path[path.len() - 1] as int].address == frames[path[path.len() - 2] as int].address {
            rest
        } else {
            rest.push(path.last())
        }
    }
}

/// The frames that a backtrace keeps are frames of the backtrace.
proof fn lemma_non_inline_within(frames: Seq<Frame>, path: Seq<usize>, bound: int)
    requires
        forall|i: int| 0 <= i < path.len() ==> #[trigger] path[i] < bound,
    ensures
        forall|i: int| 0 <= i < non_inline_path(frames, path).len()
            ==> #[trigger] non_inline_path(frames, path)[i] < bound,
    decreases path.len(),
{
    if path.len() > 0 {
        let shorter = path.drop_last();
        assert forall|i: int| 0 <= i < shorter.len() implies #[trigger] shorter[i] < bound by {
            assert(shorter[i] == path[i]);
        }
        lemma_non_inline_within(frames, shorter, bound);
        let rest = non_inline_path(frames, shorter);
        let kept = non_inline_path(frames, path);
        assert(path.last() == path[path.len() - 1]);
        assert forall|i: int| 0 <= i < kept.len() implies #[trigger] kept[i] < bound by {
            if i < rest.len() {
                assert(kept[i] == rest[i]);
            } else {
                assert(kept[i] == path.last());
            }
        }
    }
}

impl Data {
    /// The frames of a backtrace, outermost first, skipping each frame at
    /// the same address as the one before it.
    pub fn get_non_inline_backtrace(&self, id: BacktraceId) -> (frames: Vec<usize>)
        requires
            id.0 < self.backtraces@.len(),
            self.backtraces@[id.0 as int].0 + self.backtraces@[id.0 as int].1 <= self.backtraces_storage@.len(),
            forall|i: int|
                0 <= i < backtrace_frames(self.backtraces@, self.backtraces_storage@, id.0 as int).len()
                    ==> #[trigger] backtrace_frames(self.backtraces@, self.backtraces_storage@, id.0 as int)[i]
                    < self.frames@.len(),
        ensures
            frames@ == non_inline_path(
                self.frames@,
                backtrace_frames(self.backtraces@, self.backtraces_storage@, id.0 as int).reverse(),
            ),
            forall|i: int| 0 <= i < frames@.len() ==> #[trigger] frames@[i] < self.frames@.len(),
    {
        let ghost path = backtrace_frames(self.backtraces@, self.backtraces_storage@, id.0 as int).reverse();
        let ids = self.get_frame_ids(id);
        let n = ids.len();
        let mut out: Vec<usize> = Vec::new();
        let mut last_address: Option<CodePointer> = None;
        let mut i: usize = 0;
        proof {
            assert(path.take(0) =~= Seq::<usize>::empty());
        }
        while i < n
            invariant
                n == ids@.len(),
                path == ids@.reverse(),
                forall|j: int| 0 <= j < n ==> #[trigger] ids@[j] < self.frames@.len(),
                0 <= i <= n,
                out@ == non_inline_path(self.frames@, path.take(i as int)),
                i == 0 ==> last_address is None,
                i > 0 ==> last_address == Some(self.frames@[path[i - 1] as int].address),
            decreases n - i,
        {
            let frame_id = ids[n - 1 - i];
            let address = self.frames[frame_id].address;
            proof {
                assert(frame_id == path[i as int]);
                assert(path.take(i + 1).drop_last() =~= path.take(i as int));
                assert(path.take(i + 1).last() == frame_id);
                if i > 0 {
                    assert(path.take(i + 1)[i - 1] == path[i - 1]);
                }
            }
            let keep = match last_address {
                Some(previous) => previous.0 != address.0,
                None => true,
            };
            last_address = Some(address);
            if keep {
                out.push(frame_id);
            }
            i = i + 1;
        }
        proof {
            assert(path.take(n as int) =~= path);
            assert forall|i: int| 0 <= i < path.len() implies #[trigger] path[i] < self.frames@.len() by {
                assert(path[i] == ids@[n - 1 - i]);
            }
            lemma_non_inline_within(self.frames@, path, self.frames@.len() as int);
        }
        out
    }
}

impl AllocationChain {
    /// How long the chain lived, if its last allocation was freed.
    pub fn lifetime(&self, data: &Data) -> (lifetime: Option<Timestamp>)
        requires
            self.first.0 < data.allocations@.len(),
            self.last.0 < data.allocations@.len(),
            data.allocations@[self.last.0 as int].deallocation matches Some(d) ==> data.allocations@[self.first.0 as int].timestamp.0
                <= d.timestamp.0,
        ensures
            lifetime == (match data.allocations@[self.last.0 as int].deallocation {
                Some(d) => Some(Timestamp((d.timestamp.0 - data.allocations@[self.first.0 as int].timestamp.0) as u64)),
                None => None::<Timestamp>,
            }),
    {
        let last = data.get_allocation(self.last);
        let first = data.get_allocation(self.first);
        match last.deallocation {
            Some(ref deallocation) => Some(Timestamp(deallocation.timestamp.0 - first.timestamp.0)),
            None => None,
        }
    }
}

/// The key of allocations of each kind of order: by time, by address, by
/// size.
pub open spec fn key_for(kind: u8) -> spec_fn(Allocation) -> u64 {
    if kind == 0 {
        time_key()
    } else if kind == 1 {
        address_key()
    } else {
        size_key()
    }
}

fn key_of(allocation: &Allocation, kind: u8) -> (key: u64)
    ensures
        key == (key_for(kind))(*allocation),
{
    if kind == 0 {
        allocation.timestamp.0
    } else if kind == 1 {
        allocation.pointer
    } else {
        allocation.size
    }
}

/// The allocations in the order of the key of `kind`, those with equal
/// keys in the order in which they were made.
pub fn ordered_ids(allocations: &Vec<Allocation>, kind: u8) -> (ids: Vec<AllocationId>)
    ensures
        ids@ == ordered_by(allocations@, key_for(kind)),
{
    let mut entries: Vec<(u64, u64)> = Vec::new();
    let mut i: usize = 0;
    while i < allocations.len()
        invariant
            0 <= i <= allocations@.len(),
            entries@ == keyed_by(allocations@.take(i as int), key_for(kind)),
        decreases allocations@.len() - i,
    {
        let key = key_of(&allocations[i], kind);
        entries.push((key, i as u64));
        i = i + 1;
        proof {
            assert(entries@ =~= keyed_by(allocations@.take(i as int), key_for(kind)));
        }
    }
    proof {
        assert(allocations@.take(allocations@.len() as int) =~= allocations@);
    }
    sort_by_key(&mut entries);
    let ghost sorted = entries@;
    let mut ids: Vec<AllocationId> = Vec::new();
    let mut j: usize = 0;
    while j < entries.len()
        invariant
            0 <= j <= entries@.len(),
            entries@ == sorted,
            ids@ == ids_of(sorted.take(j as int)),
        decreases entries@.len() - j,
    {
        ids.push(AllocationId::new(entries[j].1));
        j = j + 1;
        proof {
            assert(ids@ =~= ids_of(sorted.take(j as int)));
        }
    }
    proof {
        assert(sorted.take(sorted.len() as int) =~= sorted);
    }
    ids
}

/// Whether each of `ids` names one of the allocations, and the allocations
/// they name come in ascending order of `key`.
pub open spec fn sorted_index(allocs: Seq<Allocation>, ids: Seq<AllocationId>, key: spec_fn(Allocation) -> u64) -> bool {
    &&& forall|i: int| 0 <= i < ids.len() ==> (#[trigger] ids[i]).0 < allocs.len()
    &&& forall|i: int, j: int|
        0 <= i <= j < ids.len() ==> #[trigger] key_at(allocs, ids, key, i) <= #[trigger] key_at(allocs, ids, key, j)
}

/// The key of the allocation that entry `i` of `ids` names.
pub open spec fn key_at(allocs: Seq<Allocation>, ids: Seq<AllocationId>, key: spec_fn(Allocation) -> u64, i: int) -> u64 {
    key(allocs[ids[i].0 as int])
}

/// Whether `run` is the stretch of `ids` whose keys lie within `min..=max`.
pub open spec fn run_within(
    allocs: Seq<Allocation>,
    ids: Seq<AllocationId>,
    key: spec_fn(Allocation) -> u64,
    min: Option<u64>,
    max: Option<u64>,
    run: Seq<AllocationId>,
) -> bool {
    exists|s: int, e: int|
        0 <= s <= e <= ids.len() && run == ids.subrange(s, e) && forall|i: int|
            0 <= i < ids.len() ==> (s <= i < e <==> within_bounds(#[trigger] key_at(allocs, ids, key, i), min, max))
}

/// Whether neither bound is above the other.
pub open spec fn bounds_in_order(min: Option<u64>, max: Option<u64>) -> bool {
    min is None || max is None || min.unwrap() <= max.unwrap()
}

/// The bound a time gives, as a number.
pub open spec fn time_bound(t: Option<Timestamp>) -> Option<u64> {
    match t {
        Some(t) => Some(t.0),
        None => None,
    }
}

/// An index built by `ordered_ids` is sorted.
pub proof fn lemma_ordered_ids_sorted(allocs: Seq<Allocation>, kind: u8)
    requires
        allocs.len() <= u64::MAX,
    ensures
        sorted_index(allocs, ordered_by(allocs, key_for(kind)), key_for(kind)),
{
    lemma_ordered_by_ascending(allocs, key_for(kind));
    let ids = ordered_by(allocs, key_for(kind));
    assert forall|i: int, j: int| 0 <= i <= j < ids.len() implies #[trigger] key_at(allocs, ids, key_for(kind), i)
        <= #[trigger] key_at(allocs, ids, key_for(kind), j) by {
        if i < j {
            assert(ids[i] == ordered_by(allocs, key_for(kind))[i]);
        }
    }
}

impl Data {
    /// The first position of `ids` whose allocation's key is at least `bound`.
    fn first_at_least(&self, ids: &[AllocationId], kind: u8, bound: u64) -> (index: usize)
        requires
            sorted_index(self.allocations@, ids@, key_for(kind)),
        ensures
            index <= ids@.len(),
            forall|i: int| 0 <= i < index ==> key_at(self.allocations@, ids@, key_for(kind), i) < bound,
            forall|i: int| index <= i < ids@.len() ==> key_at(self.allocations@, ids@, key_for(kind), i) >= bound,
    {
        let mut lo: usize = 0;
        let mut hi: usize = ids.len();
        while lo < hi
            invariant
                0 <= lo <= hi <= ids@.len(),
                sorted_index(self.allocations@, ids@, key_for(kind)),
                forall|i: int| 0 <= i < lo ==> key_at(self.allocations@, ids@, key_for(kind), i) < bound,
                forall|i: int| hi <= i < ids@.len() ==> key_at(self.allocations@, ids@, key_for(kind), i) >= bound,
            decreases hi - lo,
        {
            let mid = lo + (hi - lo) / 2;
            let id = ids[mid];
            let key = key_of(self.get_allocation(id), kind);
            assert(key == key_at(self.allocations@, ids@, key_for(kind), mid as int));
            if key < bound {
                lo = mid + 1;
            } else {
                hi = mid;
            }
        }
        lo
    }

    /// The first position of `ids` whose allocation's key is above `bound`.
    fn first_above(&self, ids: &[AllocationId], kind: u8, bound: u64) -> (index: usize)
        requires
            sorted_index(self.allocations@, ids@, key_for(kind)),
        ensures
            index <= ids@.len(),
            forall|i: int| 0 <= i < index ==> key_at(self.allocations@, ids@, key_for(kind), i) <= bound,
            forall|i: int| index <= i < ids@.len() ==> key_at(self.allocations@, ids@, key_for(kind), i) > bound,
    {
        let mut lo: usize = 0;
        let mut hi: usize = ids.len();
        while lo < hi
            invariant
                0 <= lo <= hi <= ids@.len(),
                sorted_index(self.allocations@, ids@, key_for(kind)),
                forall|i: int| 0 <= i < lo ==> key_at(self.allocations@, ids@, key_for(kind), i) <= bound,
                forall|i: int| hi <= i < ids@.len() ==> key_at(self.allocations@, ids@, key_for(kind), i) > bound,
            decreases hi - lo,
        {
            let mid = lo + (hi - lo) / 2;
            let id = ids[mid];
            let key = key_of(self.get_allocation(id), kind);
            assert(key == key_at(self.allocations@, ids@, key_for(kind), mid as int));
            if key <= bound {
                lo = mid + 1;
            } else {
                hi = mid;
            }
        }
        lo
    }

    /// The stretch of the sorted `ids` whose keys lie within `min..=max`.
    fn sorted_by<'a>(&self, ids: &'a [AllocationId], kind: u8, min: Option<u64>, max: Option<u64>) -> (run: &'a [AllocationId])
        requires
            sorted_index(self.allocations@, ids@, key_for(kind)),
            bounds_in_order(min, max),
        ensures
            run_within(self.allocations@, ids@, key_for(kind), min, max, run@),
    {
        let start = match min {
            Some(m) => self.first_at_least(ids, kind, m),
            None => 0,
        };
        let end = match max {
            Some(m) => self.first_above(ids, kind, m),
            None => ids.len(),
        };
        proof {
            if start > end {
                let k = key_at(self.allocations@, ids@, key_for(kind), end as int);
                assert(k < min.unwrap());
                assert(k > max.unwrap());
            }
        }
        let run = vstd::slice::slice_subrange(ids, start, end);
        proof {
            assert forall|i: int| 0 <= i < ids@.len() implies (start <= i < end <==> within_bounds(
                #[trigger] key_at(self.allocations@, ids@, key_for(kind), i),
                min,
                max,
            )) by {}
            assert(run_within(self.allocations@, ids@, key_for(kind), min, max, run@)) by {
                assert(0 <= start as int <= end as int <= ids@.len() && run@ == ids@.subrange(start as int, end as int));
            }
        }
        run
    }

    /// The allocations in time order, those made within `min..=max`.
    pub fn alloc_sorted_by_timestamp(&self, min: Option<Timestamp>, max: Option<Timestamp>) -> (run: &[AllocationId])
        requires
            sorted_index(self.allocations@, self.sorted_by_timestamp@, time_key()),
            bounds_in_order(time_bound(min), time_bound(max)),
        ensures
            run_within(self.allocations@, self.sorted_by_timestamp@, time_key(), time_bound(min), time_bound(max), run@),
    {
        let low = match min {
            Some(t) => Some(t.0),
            None => None,
        };
        let high = match max {
            Some(t) => Some(t.0),
            None => None,
        };
        self.sorted_by(self.sorted_by_timestamp.as_slice(), 0, low, high)
    }

    /// The allocations in order of size, those of a size within `min..=max`.
    pub fn alloc_sorted_by_size(&self, min: Option<u64>, max: Option<u64>) -> (run: &[AllocationId])
        requires
            sorted_index(self.allocations@, self.sorted_by_size@, size_key()),
            bounds_in_order(min, max),
        ensures
            run_within(self.allocations@, self.sorted_by_size@, size_key(), min, max, run@),
    {
        self.sorted_by(self.sorted_by_size.as_slice(), 2, min, max)
    }

    /// The allocations in order of address, those at an address within
    /// `min..=max`.
    pub fn alloc_sorted_by_address(&self, min: Option<u64>, max: Option<u64>) -> (run: &[AllocationId])
        requires
            sorted_index(self.allocations@, self.sorted_by_address@, address_key()),
            bounds_in_order(min, max),
        ensures
            run_within(self.allocations@, self.sorted_by_address@, address_key(), min, max, run@),
    {
        self.sorted_by(self.sorted_by_address.as_slice(), 1, min, max)
    }

    /// The operations, in time order.
    pub fn operation_ids(&self) -> (ids: &[OperationId])
        ensures
            ids@ == self.operations@,
    {
        self.operations.as_slice()
    }

    /// The bytes allocated over the whole recording.
    pub fn total_allocated(&self) -> (total: u64)
        ensures
            total == self.total_allocated,
    {
        self.total_allocated
    }

    /// How many allocations were made over the whole recording.
    pub fn total_allocated_count(&self) -> (count: u64)
        ensures
            count == self.total_allocated_count,
    {
        self.total_allocated_count
    }

    /// The bytes freed over the whole recording.
    pub fn total_freed(&self) -> (total: u64)
        ensures
            total == self.total_freed,
    {
        self.total_freed
    }

    /// How many allocations were freed over the whole recording.
    pub fn total_freed_count(&self) -> (count: u64)
        ensures
            count == self.total_freed_count,
    {
        self.total_freed_count
    }

    /// When the recording started.
    pub fn initial_timestamp(&self) -> (timestamp: Timestamp)
        ensures
            timestamp == self.initial_timestamp,
    {
        self.initial_timestamp
    }

    /// When the last allocation of the recording was made.
    pub fn last_timestamp(&self) -> (timestamp: Timestamp)
        ensures
            timestamp == self.last_timestamp,
    {
        self.last_timestamp
    }

    /// The size of a pointer on the recorded machine.
    pub fn pointer_size(&self) -> (size: u64)
        ensures
            size == self.pointer_size,
    {
        self.pointer_size
    }

    /// The path of the recorded executable.
    pub fn executable(&self) -> (path: &[u8])
        ensures
            path@ == self.executable@,
    {
        self.executable.as_slice()
    }

    /// The architecture of the recorded machine.
    pub fn architecture(&self) -> (name: &str)
        ensures
            name@ == self.architecture@,
    {
        self.architecture.as_str()
    }

    /// The depth of the deepest backtrace.
    pub fn maximum_backtrace_depth(&self) -> (depth: u32)
        ensures
            depth == self.maximum_backtrace_depth,
    {
        self.maximum_backtrace_depth
    }

    /// The calls of `mallopt` that were recorded.
    pub fn mallopts(&self) -> (calls: &[Mallopt])
        ensures
            calls@ == self.mallopts@,
    {
        self.mallopts.as_slice()
    }

    /// The maps and unmaps of memory that were recorded.
    pub fn mmap_operations(&self) -> (operations: &[MmapOperation])
        ensures
            operations@ == self.mmap_operations@,
    {
        self.mmap_operations.as_slice()
    }
}

/// The operations in time order, those at the same time in the order in
/// which they happened.
pub fn order_operations(operations: &Vec<(Timestamp, OperationId)>) -> (ordered: Vec<OperationId>)
    ensures
        ordered@ == operations_in_time(operations@),
{
    let mut entries: Vec<(u64, u64)> = Vec::new();
    let mut i: usize = 0;
    while i < operations.len()
        invariant
            0 <= i <= operations@.len(),
            entries@ == operation_entries(operations@.take(i as int)),
        decreases operations@.len() - i,
    {
        let (timestamp, op) = operations[i];
        entries.push((timestamp.0, op.0));
        i = i + 1;
        proof {
            assert(entries@ =~= operation_entries(operations@.take(i as int)));
        }
    }
    proof {
        assert(operations@.take(operations@.len() as int) =~= operations@);
    }
    sort_by_key(&mut entries);
    let ghost sorted = entries@;
    let mut ordered: Vec<OperationId> = Vec::new();
    let mut j: usize = 0;
    while j < entries.len()
        invariant
            0 <= j <= entries@.len(),
            entries@ == sorted,
            ordered@ == sorted.take(j as int).map_values(|e: (u64, u64)| OperationId(e.1)),
        decreases entries@.len() - j,
    {
        ordered.push(OperationId(entries[j].1));
        j = j + 1;
        proof {
            assert(ordered@ =~= sorted.take(j as int).map_values(|e: (u64, u64)| OperationId(e.1)));
        }
    }
    proof {
        assert(sorted.take(sorted.len() as int) =~= sorted);
    }
    ordered
}

/// The latest time at which any backtrace allocated, or `default` where
/// there is no backtrace.
pub fn latest_allocation(stats: &Vec<GroupStatistics>, default: Timestamp) -> (latest: Timestamp)
    ensures
        latest == latest_of_groups(stats@, default),
{
    if stats.len() == 0 {
        return default;
    }
    let mut latest = stats[0].last_allocation;
    let mut i: usize = 1;
    proof {
        assert(stats@.take(1).drop_last() =~= Seq::<GroupStatistics>::empty());
    }
    while i < stats.len()
        invariant
            1 <= i <= stats@.len(),
            latest == latest_of_groups(stats@.take(i as int), default),
        decreases stats@.len() - i,
    {
        let candidate = stats[i].last_allocation;
        if candidate.0 > latest.0 {
            latest = candidate;
        }
        i = i + 1;
        proof {
            assert(stats@.take(i as int).drop_last() =~= stats@.take(i - 1));
        }
    }
    proof {
        assert(stats@.take(stats@.len() as int) =~= stats@);
    }
    latest
}

proof fn lemma_occurrences_step(s: Seq<usize>, start: int, j: int, f: int)
    requires
        0 <= start <= j < s.len(),
    ensures
        occurrences(s.subrange(start, j + 1), f) == occurrences(s.subrange(start, j), f) + if s[j] == f {
            1nat
        } else {
            0nat
        },
{
    assert(s.subrange(start, j + 1).drop_last() =~= s.subrange(start, j));
    assert(s.subrange(start, j + 1).last() == s[j]);
}

proof fn lemma_occurrences_grow(s: Seq<usize>, start: int, j: int, end: int, f: int)
    requires
        0 <= start <= j <= end <= s.len(),
    ensures
        occurrences(s.subrange(start, j), f) <= occurrences(s.subrange(start, end), f),
    decreases end - j,
{
    if j < end {
        lemma_occurrences_grow(s, start, j, end - 1, f);
        lemma_occurrences_step(s, start, end - 1, f);
    }
}

proof fn lemma_frame_allocations_grow(
    backtraces: Seq<(u32, u32)>,
    storage: Seq<usize>,
    stats: Seq<GroupStatistics>,
    f: int,
    b: int,
    end: int,
)
    requires
        0 <= b <= end,
    ensures
        frame_allocations(backtraces, storage, stats, f, b) <= frame_allocations(backtraces, storage, stats, f, end),
    decreases end - b,
{
    if b < end {
        lemma_frame_allocations_grow(backtraces, storage, stats, f, b, end - 1);
    }
}

proof fn lemma_add_one_more(occ: nat, c: nat)
    ensures
        (occ + 1) * c == occ * c + c,
{
    assert((occ + 1) * c == occ * c + c) by (nonlinear_arith);
}

/// Whether each frame is as it was, with `added(f)` more allocations.
pub open spec fn frames_with(frames: Seq<Frame>, start: Seq<Frame>, added: spec_fn(int) -> int) -> bool {
    &&& frames.len() == start.len()
    &&& forall|f: int|
        #![trigger frames[f]]
        0 <= f < frames.len() ==> frames[f] == Frame { count: (start[f].count + added(f)) as u64, ..start[f] }
}

/// Adds to the count of each frame the allocations made through it.
pub fn count_frames(
    frames: &mut Vec<Frame>,
    backtraces: &Vec<(u32, u32)>,
    storage: &Vec<usize>,
    stats: &Vec<GroupStatistics>,
)
    requires
        stats@.len() == backtraces@.len(),
        forall|b: int|
            #![trigger backtraces@[b]]
            0 <= b < backtraces@.len() ==> backtraces@[b].0 + backtraces@[b].1 <= storage@.len(),
        forall|j: int| #![trigger storage@[j]] 0 <= j < storage@.len() ==> storage@[j] < old(frames)@.len(),
        frame_counts_fit(old(frames)@, backtraces@, storage@, stats@),
    ensures
        final(frames)@ == counted_frames(old(frames)@, backtraces@, storage@, stats@),
{
    let ghost f0 = frames@;
    let ghost bs = backtraces@;
    let ghost st = storage@;
    let ghost gs = stats@;
    let ghost total = backtraces@.len() as int;
    let mut b: usize = 0;
    proof {
        assert(frames_with(frames@, f0, |f: int| frame_allocations(bs, st, gs, f, 0) as int));
    }
    while b < backtraces.len()
        invariant
            stats@.len() == backtraces@.len(),
            bs == backtraces@,
            st == storage@,
            gs == stats@,
            total == bs.len(),
            0 <= b <= bs.len(),
            forall|k: int| #![trigger bs[k]] 0 <= k < bs.len() ==> bs[k].0 + bs[k].1 <= st.len(),
            forall|j: int| #![trigger st[j]] 0 <= j < st.len() ==> st[j] < f0.len(),
            frame_counts_fit(f0, bs, st, gs),
            frames_with(frames@, f0, |f: int| frame_allocations(bs, st, gs, f, b as int) as int),
        decreases bs.len() - b,
    {
        let (offset, length) = backtraces[b];
        let c = stats[b].alloc_count;
        let stored = storage.len();
        proof {
            assert(bs[b as int].0 + bs[b as int].1 <= stored);
        }
        let start = offset as usize;
        let end = offset as usize + length as usize;
        let mut j: usize = start;
        proof {
            assert(st.subrange(start as int, start as int) =~= Seq::<usize>::empty());
            assert forall|g: int| #![trigger frames@[g]] 0 <= g < frames@.len() implies frames@[g] == Frame {
                count: (f0[g].count + (frame_allocations(bs, st, gs, g, b as int) + occurrences(st.subrange(start as int, start as int), g) * (c as nat)) as int) as u64,
                ..f0[g]
            } by {
                assert(occurrences(st.subrange(start as int, start as int), g) == 0);
                assert(0 * (c as nat) == 0) by (nonlinear_arith);
            }
            assert(frames_with(
                frames@,
                f0,
                |f: int| (frame_allocations(bs, st, gs, f, b as int) + occurrences(st.subrange(start as int, start as int), f) * (c as nat)) as int,
            ));
        }
        while j < end
            invariant
                stats@.len() == backtraces@.len(),
                bs == backtraces@,
                st == storage@,
                gs == stats@,
                total == bs.len(),
                0 <= b < bs.len(),
                start == bs[b as int].0,
                end == bs[b as int].0 + bs[b as int].1,
                end <= st.len(),
                c == gs[b as int].alloc_count,
                start <= j <= end,
                forall|k: int| #![trigger bs[k]] 0 <= k < bs.len() ==> bs[k].0 + bs[k].1 <= st.len(),
                forall|i: int| #![trigger st[i]] 0 <= i < st.len() ==> st[i] < f0.len(),
                frame_counts_fit(f0, bs, st, gs),
                frames_with(
                    frames@,
                    f0,
                    |f: int| (frame_allocations(bs, st, gs, f, b as int) + occurrences(st.subrange(start as int, j as int), f) * (c as nat)) as int,
                ),
            decreases end - j,
        {
            let f = storage[j];
            let ghost fi = f as int;
            proof {
                assert(st[j as int] < f0.len());
                lemma_occurrences_step(st, start as int, j as int, fi);
                lemma_occurrences_grow(st, start as int, j as int + 1, end as int, fi);
                lemma_frame_allocations_grow(bs, st, gs, fi, b as int + 1, total);
                let occ = occurrences(st.subrange(start as int, j as int), fi);
                lemma_add_one_more(occ, c as nat);
                assert(frame_allocations(bs, st, gs, fi, b as int + 1) == frame_allocations(bs, st, gs, fi, b as int)
                    + occurrences(st.subrange(start as int, end as int), fi) * (c as nat));
                assert(occurrences(st.subrange(start as int, j as int + 1), fi) * (c as nat)
                    <= occurrences(st.subrange(start as int, end as int), fi) * (c as nat)) by (nonlinear_arith)
                    requires
                        occurrences(st.subrange(start as int, j as int + 1), fi) <= occurrences(st.subrange(start as int, end as int), fi),
                ;
                assert(f0[fi].count + frame_allocations(bs, st, gs, fi, total) <= u64::MAX);
                assert(frames@[fi] == Frame {
                    count: (f0[fi].count + frame_allocations(bs, st, gs, fi, b as int) + occ * (c as nat)) as u64,
                    ..f0[fi]
                });
            }
            let old_frame = &frames[f];
            let frame = Frame {
                address: old_frame.address,
                count: old_frame.count + c,
                is_inline: old_frame.is_inline,
                library: old_frame.library,
                function: old_frame.function,
                raw_function: old_frame.raw_function,
                source: old_frame.source,
                line: old_frame.line,
                column: old_frame.column,
            };
            let ghost prior = frames@;
            frames.set(f, frame);
            j = j + 1;
            proof {
                let next = |g: int| frame_allocations(bs, st, gs, g, b as int) + occurrences(st.subrange(start as int, j as int), g) * (c as nat);
                assert forall|g: int| #![trigger frames@[g]] 0 <= g < frames@.len() implies frames@[g] == Frame {
                    count: (f0[g].count + next(g)) as u64,
                    ..f0[g]
                } by {
                    lemma_occurrences_step(st, start as int, j - 1, g);
                    let occ = occurrences(st.subrange(start as int, j - 1), g);
                    lemma_add_one_more(occ, c as nat);
                    if g != fi {
                        assert(frames@[g] == prior[g]);
                    }
                }
            }
        }
        b = b + 1;
        proof {
            let next = |g: int| frame_allocations(bs, st, gs, g, b as int) as int;
            assert forall|g: int| #![trigger frames@[g]] 0 <= g < frames@.len() implies frames@[g] == Frame {
                count: (f0[g].count + next(g)) as u64,
                ..f0[g]
            } by {
                assert(frame_allocations(bs, st, gs, g, b as int) == frame_allocations(bs, st, gs, g, b - 1)
                    + occurrences(backtrace_frames(bs, st, b - 1), g) * (gs[b - 1].alloc_count as nat));
            }
        }
    }
    proof {
        assert(frames@ =~= counted_frames(f0, bs, st, gs));
    }
}

/// Whether the count of every frame can take the allocations made through
/// it.
pub fn frame_counts_fit_now(
    frames: &Vec<Frame>,
    backtraces: &Vec<(u32, u32)>,
    storage: &Vec<usize>,
    stats: &Vec<GroupStatistics>,
) -> (r: bool)
    requires
        stats@.len() == backtraces@.len(),
        forall|b: int|
            #![trigger backtraces@[b]]
            0 <= b < backtraces@.len() ==> backtraces@[b].0 + backtraces@[b].1 <= storage@.len(),
        forall|j: int| #![trigger storage@[j]] 0 <= j < storage@.len() ==> storage@[j] < frames@.len(),
    ensures
        r == frame_counts_fit(frames@, backtraces@, storage@, stats@),
{
    let ghost f0 = frames@;
    let ghost bs = backtraces@;
    let ghost st = storage@;
    let ghost gs = stats@;
    let ghost total = backtraces@.len() as int;
    let mut counts: Vec<u64> = Vec::new();
    let mut i: usize = 0;
    while i < frames.len()
        invariant
            f0 == frames@,
            0 <= i <= f0.len(),
            counts@.len() == i,
            forall|f: int| #![trigger counts@[f]] 0 <= f < i ==> counts@[f] == f0[f].count,
        decreases f0.len() - i,
    {
        counts.push(frames[i].count);
        i = i + 1;
    }
    let mut b: usize = 0;
    while b < backtraces.len()
        invariant
            stats@.len() == backtraces@.len(),
            f0 == frames@,
            bs == backtraces@,
            st == storage@,
            gs == stats@,
            total == bs.len(),
            0 <= b <= bs.len(),
            counts@.len() == f0.len(),
            forall|k: int| #![trigger bs[k]] 0 <= k < bs.len() ==> bs[k].0 + bs[k].1 <= st.len(),
            forall|j: int| #![trigger st[j]] 0 <= j < st.len() ==> st[j] < f0.len(),
            forall|f: int|
                #![trigger counts@[f]]
                0 <= f < f0.len() ==> counts@[f] == f0[f].count + frame_allocations(bs, st, gs, f, b as int),
        decreases bs.len() - b,
    {
        let (offset, length) = backtraces[b];
        let c = stats[b].alloc_count;
        let stored = storage.len();
        proof {
            assert(bs[b as int].0 + bs[b as int].1 <= stored);
        }
        let start = offset as usize;
        let end = offset as usize + length as usize;
        let mut j: usize = start;
        proof {
            assert(st.subrange(start as int, start as int) =~= Seq::<usize>::empty());
            assert forall|f: int| #![trigger counts@[f]] 0 <= f < f0.len() implies counts@[f] == f0[f].count
                + frame_allocations(bs, st, gs, f, b as int) + occurrences(st.subrange(start as int, start as int), f) * (c as nat) by {
                assert(occurrences(st.subrange(start as int, start as int), f) == 0);
                assert(0 * (c as nat) == 0) by (nonlinear_arith);
            }
        }
        while j < end
            invariant
                stats@.len() == backtraces@.len(),
                f0 == frames@,
                bs == backtraces@,
                st == storage@,
                gs == stats@,
                total == bs.len(),
                0 <= b < bs.len(),
                start == bs[b as int].0,
                end == bs[b as int].0 + bs[b as int].1,
                end <= st.len(),
                c == gs[b as int].alloc_count,
                start <= j <= end,
                counts@.len() == f0.len(),
                forall|k: int| #![trigger bs[k]] 0 <= k < bs.len() ==> bs[k].0 + bs[k].1 <= st.len(),
                forall|i: int| #![trigger st[i]] 0 <= i < st.len() ==> st[i] < f0.len(),
                forall|f: int|
                    #![trigger counts@[f]]
                    0 <= f < f0.len() ==> counts@[f] == f0[f].count + frame_allocations(bs, st, gs, f, b as int)
                        + occurrences(st.subrange(start as int, j as int), f) * (c as nat),
            decreases end - j,
        {
            let f = storage[j];
            let ghost fi = f as int;
            proof {
                assert(st[j as int] < f0.len());
                lemma_occurrences_step(st, start as int, j as int, fi);
                lemma_occurrences_grow(st, start as int, j as int + 1, end as int, fi);
                lemma_frame_allocations_grow(bs, st, gs, fi, b as int + 1, total);
                let occ = occurrences(st.subrange(start as int, j as int), fi);
                lemma_add_one_more(occ, c as nat);
                assert(frame_allocations(bs, st, gs, fi, b as int + 1) == frame_allocations(bs, st, gs, fi, b as int)
                    + occurrences(st.subrange(start as int, end as int), fi) * (c as nat));
                assert(occurrences(st.subrange(start as int, j as int + 1), fi) * (c as nat)
                    <= occurrences(st.subrange(start as int, end as int), fi) * (c as nat)) by (nonlinear_arith)
                    requires
                        occurrences(st.subrange(start as int, j as int + 1), fi) <= occurrences(st.subrange(start as int, end as int), fi),
                ;
            }
            match counts[f].checked_add(c) {
                None => {
                    proof {
                        let occ = occurrences(st.subrange(start as int, j as int), fi);
                        let next_occ = occurrences(st.subrange(start as int, j as int + 1), fi);
                        assert(next_occ == occ + 1);
                        assert(counts@[fi] == f0[fi].count + frame_allocations(bs, st, gs, fi, b as int) + occ * (c as nat));
                        assert(counts@[fi] + c > u64::MAX);
                        assert(f0[fi].count + frame_allocations(bs, st, gs, fi, b as int) + next_occ * (c as nat) > u64::MAX);
                        assert(f0[fi].count + frame_allocations(bs, st, gs, fi, total) > u64::MAX);
                        assert(f0[fi] == f0[fi]);
                        assert(!frame_counts_fit(f0, bs, st, gs));
                    }
                    return false;
                },
                Some(count) => {
                    let ghost prior = counts@;
                    counts.set(f, count);
                    j = j + 1;
                    proof {
                        assert forall|g: int|
                            #![trigger counts@[g]]
                            0 <= g < f0.len() implies counts@[g] == f0[g].count + frame_allocations(bs, st, gs, g, b as int)
                                + occurrences(st.subrange(start as int, j as int), g) * (c as nat) by {
                            lemma_occurrences_step(st, start as int, j - 1, g);
                            let occ = occurrences(st.subrange(start as int, j - 1), g);
                            lemma_add_one_more(occ, c as nat);
                            if g != fi {
                                assert(counts@[g] == prior[g]);
                            }
                        }
                    }
                },
            }
        }
        b = b + 1;
        proof {
            assert forall|g: int| #![trigger counts@[g]] 0 <= g < f0.len() implies counts@[g] == f0[g].count
                + frame_allocations(bs, st, gs, g, b as int) by {
                assert(frame_allocations(bs, st, gs, g, b as int) == frame_allocations(bs, st, gs, g, b - 1)
                    + occurrences(backtrace_frames(bs, st, b - 1), g) * (gs[b - 1].alloc_count as nat));
            }
        }
    }
    proof {
        assert forall|f: int| #![trigger f0[f]] 0 <= f < f0.len() implies f0[f].count + frame_allocations(
            bs,
            st,
            gs,
            f,
            total,
        ) <= u64::MAX by {
            assert(counts@[f] == f0[f].count + frame_allocations(bs, st, gs, f, total));
        }
    }
    true
}

/// Allocations put in the order of a key come in ascending order of that
/// key, and each is one of the allocations.
pub proof fn lemma_ordered_by_ascending(allocs: Seq<Allocation>, key: spec_fn(Allocation) -> u64)
    requires
        allocs.len() <= u64::MAX,
    ensures
        ordered_by(allocs, key).len() == allocs.len(),
        forall|i: int|
            #![trigger ordered_by(allocs, key)[i]]
            0 <= i < allocs.len() ==> ordered_by(allocs, key)[i].0 < allocs.len(),
        forall|i: int, j: int|
            #![trigger ordered_by(allocs, key)[i], ordered_by(allocs, key)[j]]
            0 <= i < j < allocs.len() ==> key(allocs[ordered_by(allocs, key)[i].0 as int]) <= key(
                allocs[ordered_by(allocs, key)[j].0 as int],
            ),
{
    let entries = keyed_by(allocs, key);
    let sorted = stably_sorted(entries);
    lemma_stably_sorted(entries);
    sorted.to_multiset_ensures();
    entries.to_multiset_ensures();
    assert forall|i: int| 0 <= i < sorted.len() implies {
        &&& sorted[i].1 < allocs.len()
        &&& sorted[i].0 == key(allocs[sorted[i].1 as int])
    } by {
        assert(sorted.contains(sorted[i]));
        assert(sorted.to_multiset().count(sorted[i]) > 0);
        assert(entries.to_multiset().count(sorted[i]) > 0);
        assert(entries.contains(sorted[i]));
        let k = choose|k: int| 0 <= k < entries.len() && entries[k] == sorted[i];
        assert(entries[k] == (key(allocs[k]), k as u64));
    }
    let ids = ordered_by(allocs, key);
    assert forall|i: int| #![trigger ids[i]] 0 <= i < allocs.len() implies ids[i].0 < allocs.len() by {
        assert(ids[i].0 == sorted[i].1);
    }
    assert forall|i: int, j: int|
        #![trigger ids[i], ids[j]]
        0 <= i < j < allocs.len() implies key(allocs[ids[i].0 as int]) <= key(allocs[ids[j].0 as int]) by {
        assert(ids[i].0 == sorted[i].1);
        assert(ids[j].0 == sorted[j].1);
        assert(sorted[i].0 <= sorted[j].0);
    }
}

/// The part of `v` from `start` up to `end`.
fn slice_of(v: &Vec<usize>, start: usize, end: usize) -> (s: &[usize])
    requires
        start <= end <= v@.len(),
    ensures
        s@ == v@.subrange(start as int, end as int),
{
    vstd::slice::slice_subrange(v.as_slice(), start, end)
}

} // verus!
