//! Loading a recording: the events, one after another, become the
//! allocations, backtraces and statistics that the analysis works on.

use vstd::prelude::*;
use ahash::AHashMap;
use crate::timestamp::Timestamp;
use crate::ids::{AllocationId, OperationId, BacktraceId, CodePointer, ProtectionFlags, MapFlags, StringId};
use crate::data::{
    Allocation, Deallocation, GroupStatistics, Mallopt, MalloptKind, MemoryMap, MemoryUnmap,
    MmapOperation, empty_stats, mallopt_kind,
};
use crate::event::{Event, HeaderBody, FramesInvalidated, expanded_backtrace, expand_partial_backtrace};
use crate::frame::{Frame, nonzero};
use crate::strings::{StringTable, table_strings, table_new, table_get_or_intern, table_contains, table_len};
use crate::chains::{chains_fit, chains_fit_now, links_valid, linked, chains_up_to, link_chains};
use crate::loaded::{
    Data, ordered_by, time_key, address_key, size_key, operations_in_time, counted_frames,
    frame_counts_fit, latest_of_groups, ordered_ids, order_operations, latest_allocation,
    count_frames, keyed_by, frame_counts_fit_now, backtrace_frames,
};
use crate::index_maps::{
    key_positions, key_positions_new, key_positions_contains, key_positions_insert,
    key_positions_remove, key_positions_get, number_positions, number_positions_new, number_positions_get,
    number_positions_insert, address_list_positions, address_list_positions_new,
    address_list_positions_get, address_list_positions_insert, thread_address_lists,
    thread_address_lists_new, thread_address_lists_get, thread_address_lists_insert,
};

verus! {

/// The key under which a live allocation is found again: recordings of this
/// format carry no allocation identifiers, so it is the pointer alone.
pub open spec fn pointer_key(pointer: u64) -> (u64, u64) {
    (0u64, pointer)
}

/// The flags of an allocation, from the raw flags of its event: the chunk
/// bits of the allocator and whether `calloc` made it.
pub open spec fn allocation_flags(raw: u32) -> u8 {
    ((if raw & 1 != 0 { 1u8 } else { 0u8 }) | (if raw & 2 != 0 { 2u8 } else { 0u8 })) | ((if raw & 4
        != 0 {
        4u8
    } else {
        0u8
    }) | (if raw & 0x8000_0000 != 0 {
        128u8
    } else {
        0u8
    }))
}

/// The later of two timestamps.
pub open spec fn later(a: Timestamp, b: Timestamp) -> Timestamp {
    if b.0 > a.0 {
        b
    } else {
        a
    }
}

/// The earlier of two timestamps.
pub open spec fn earlier(a: Timestamp, b: Timestamp) -> Timestamp {
    if b.0 < a.0 {
        b
    } else {
        a
    }
}

/// The usable size of an allocation: what was asked for, and the slack.
pub open spec fn usable(a: Allocation) -> int {
    a.size + a.extra_usable_space
}

/// A group's statistics once an allocation of `usable_size` bytes was made
/// from it at `timestamp`.
pub open spec fn stats_after_alloc(s: GroupStatistics, timestamp: Timestamp, usable_size: u64) -> GroupStatistics {
    GroupStatistics {
        first_allocation: earlier(s.first_allocation, timestamp),
        last_allocation: later(s.last_allocation, timestamp),
        alloc_count: (s.alloc_count + 1) as u64,
        alloc_size: (s.alloc_size + usable_size) as u64,
        free_count: s.free_count,
        free_size: s.free_size,
        min_size: if usable_size < s.min_size { usable_size } else { s.min_size },
        max_size: if usable_size > s.max_size { usable_size } else { s.max_size },
    }
}

/// A group's statistics once an allocation of `usable_size` bytes from it
/// was freed.
pub open spec fn stats_after_free(s: GroupStatistics, usable_size: u64) -> GroupStatistics {
    GroupStatistics {
        first_allocation: s.first_allocation,
        last_allocation: s.last_allocation,
        alloc_count: s.alloc_count,
        alloc_size: s.alloc_size,
        free_count: (s.free_count + 1) as u64,
        free_size: (s.free_size + usable_size) as u64,
        min_size: s.min_size,
        max_size: s.max_size,
    }
}

/// Whether the counters of a group can take one more allocation of
/// `usable_size` bytes.
pub open spec fn room_to_allocate(s: GroupStatistics, usable_size: int) -> bool {
    s.alloc_count + 1 <= u64::MAX && s.alloc_size + usable_size <= u64::MAX
}

/// Whether the counters of a group can take one more freed allocation of
/// `usable_size` bytes.
pub open spec fn room_to_free(s: GroupStatistics, usable_size: int) -> bool {
    s.free_count + 1 <= u64::MAX && s.free_size + usable_size <= u64::MAX
}

/// A new allocation, not freed, in no chain yet.
pub open spec fn fresh_allocation(
    pointer: u64,
    timestamp: Timestamp,
    size: u64,
    thread: u32,
    backtrace: u32,
    flags: u32,
    extra_usable_space: u32,
    marker: u32,
    reallocated_from: Option<AllocationId>,
) -> Allocation {
    Allocation {
        pointer,
        timestamp,
        thread,
        size,
        backtrace: BacktraceId(backtrace),
        deallocation: None,
        reallocation: None,
        reallocated_from,
        first_allocation_in_chain: None,
        position_in_chain: 0,
        flags: allocation_flags(flags),
        extra_usable_space,
        marker,
        preceding_free_space: 0,
    }
}

/// The address of the call instruction that a return address follows.
pub open spec fn frame_address(address: u64) -> u64 {
    if address > 0 {
        (address - 1) as u64
    } else {
        0
    }
}

/// The frame of an address of which nothing else is known.
pub open spec fn unknown_frame(address: u64) -> Frame {
    Frame {
        address: CodePointer(address),
        count: 0,
        is_inline: false,
        library: None,
        function: None,
        raw_function: None,
        source: None,
        line: None,
        column: None,
    }
}

/// The stored frames point at frames that exist, and so do the frames
/// found by address.
pub open spec fn frames_valid(frames: Seq<Frame>, by_address: Map<u64, u64>, storage: Seq<usize>) -> bool {
    &&& forall|i: int| #![trigger storage[i]] 0 <= i < storage.len() ==> storage[i] < frames.len()
    &&& forall|a: u64| #![trigger by_address[a]] by_address.contains_key(a) ==> by_address[a] < frames.len()
}

/// The frames, the frames by address and the storage once the frames of
/// `addresses` are stored one after another: the frame already known for an
/// address, or else a new frame of which only the address is known.
pub open spec fn resolve(
    frames: Seq<Frame>,
    by_address: Map<u64, u64>,
    storage: Seq<usize>,
    addresses: Seq<u64>,
) -> (Seq<Frame>, Map<u64, u64>, Seq<usize>)
    decreases addresses.len(),
{
    if addresses.len() == 0 {
        (frames, by_address, storage)
    } else {
        let (f, m, s) = resolve(frames, by_address, storage, addresses.drop_last());
        let a = frame_address(addresses.last());
        if m.contains_key(a) {
            (f, m, s.push(m[a] as usize))
        } else {
            (f.push(unknown_frame(a)), m.insert(a, f.len() as u64), s.push(f.len() as usize))
        }
    }
}

/// Storing the frames of a backtrace keeps the frames there were, and adds
/// frames of which nothing but the address is known.
pub proof fn lemma_resolve_extends(
    frames: Seq<Frame>,
    by_address: Map<u64, u64>,
    storage: Seq<usize>,
    addresses: Seq<u64>,
)
    ensures
        ({
            let (f, m, s) = resolve(frames, by_address, storage, addresses);
            &&& frames.len() <= f.len()
            &&& f.subrange(0, frames.len() as int) == frames
            &&& forall|i: int| frames.len() <= i < f.len() ==> #[trigger] f[i] == unknown_frame(f[i].address.0)
        }),
    decreases addresses.len(),
{
    if addresses.len() > 0 {
        lemma_resolve_extends(frames, by_address, storage, addresses.drop_last());
        let (f, m, s) = resolve(frames, by_address, storage, addresses.drop_last());
        let (g, n, t) = resolve(frames, by_address, storage, addresses);
        assert(g.subrange(0, frames.len() as int) =~= f.subrange(0, frames.len() as int));
    }
}

/// A backtrace announced adds at most one backtrace, keeps the frames there
/// were, and adds only frames of which nothing but the address is known.
pub proof fn lemma_backtrace_extends(s: LoaderState, raw_id: u64, addresses: Seq<u64>)
    ensures
        ({
            let t = s.after_backtrace(raw_id, addresses);
            &&& s.backtraces.len() <= t.backtraces.len() <= s.backtraces.len() + 1
            &&& s.frames.len() <= t.frames.len()
            &&& t.frames.subrange(0, s.frames.len() as int) == s.frames
            &&& forall|i: int| s.frames.len() <= i < t.frames.len() ==> #[trigger] t.frames[i] == unknown_frame(t.frames[i].address.0)
            &&& t.backtraces.len() == s.backtraces.len() ==> t.frames == s.frames
        }),
{
    lemma_resolve_extends(s.frames, s.frames_by_address, s.backtraces_storage, addresses);
    if s.backtrace_lookup.contains_key(addresses) {
        assert(s.frames.subrange(0, s.frames.len() as int) =~= s.frames);
    }
}

/// Whether every one of `frames` is below `known`.
fn all_below(frames: &Vec<u32>, known: usize) -> (r: bool)
    ensures
        r == forall|i: int| 0 <= i < frames@.len() ==> (#[trigger] frames@[i]) < known,
{
    let mut i: usize = 0;
    while i < frames.len()
        invariant
            0 <= i <= frames@.len(),
            forall|j: int| 0 <= j < i ==> (#[trigger] frames@[j]) < known,
        decreases frames@.len() - i,
    {
        if frames[i] as usize >= known {
            return false;
        }
        i = i + 1;
    }
    true
}

/// What a group's statistics become with the summary of allocations that
/// were made and freed before the recording reached the file.
pub open spec fn stats_merged(
    s: GroupStatistics,
    first_allocation: Timestamp,
    last_allocation: Timestamp,
    free_count: u64,
    free_size: u64,
    min_size: u64,
    max_size: u64,
) -> GroupStatistics {
    GroupStatistics {
        first_allocation: earlier(s.first_allocation, first_allocation),
        last_allocation: later(s.last_allocation, last_allocation),
        alloc_count: (s.alloc_count + free_count) as u64,
        alloc_size: (s.alloc_size + free_size) as u64,
        free_count: (s.free_count + free_count) as u64,
        free_size: (s.free_size + free_size) as u64,
        min_size: if min_size < s.min_size { min_size } else { s.min_size },
        max_size: if max_size > s.max_size { max_size } else { s.max_size },
    }
}

/// Whether the counters of a group can take such a summary.
pub open spec fn room_to_merge(s: GroupStatistics, free_count: u64, free_size: u64) -> bool {
    &&& s.alloc_count + free_count <= u64::MAX
    &&& s.alloc_size + free_size <= u64::MAX
    &&& s.free_count + free_count <= u64::MAX
    &&& s.free_size + free_size <= u64::MAX
}

/// The wall-clock time of a moment, in microseconds.
pub open spec fn wall_clock_usecs(secs: u64, nsecs: u64) -> int {
    secs * 1_000_000 + nsecs / 1_000
}

/// A list of 32-bit addresses, widened.
pub open spec fn widened(addresses: Seq<u32>) -> Seq<u64> {
    addresses.map_values(|a: u32| a as u64)
}

/// What a loader starts out with.
pub open spec fn initial_state(header: HeaderBody) -> LoaderState {
    LoaderState {
        allocations: Seq::empty(),
        live: Map::empty(),
        group_stats: Seq::empty(),
        operations: Seq::empty(),
        total_allocated: 0,
        total_allocated_count: 0,
        total_freed: 0,
        total_freed_count: 0,
        last_timestamp: Timestamp(0),
        marker: 0,
        timestamp_to_wall_clock: (wall_clock_usecs(header.wall_clock_secs, header.wall_clock_nsecs)
            as u64).wrapping_sub(header.timestamp.0),
        backtrace_ids: Map::empty(),
        backtraces: Seq::empty(),
        backtraces_storage: Seq::empty(),
        backtrace_lookup: Map::empty(),
        frames: Seq::empty(),
        frames_by_address: Map::empty(),
        previous_backtraces: Map::empty(),
        maximum_backtrace_depth: 0,
        mallopts: Seq::empty(),
        mmap_operations: Seq::empty(),
        strings: Seq::empty(),
        string_ids: Map::empty(),
    }
}

/// What the loader knows after the events so far.
pub struct LoaderState {
    /// Every allocation, in the order in which they were made.
    pub allocations: Seq<Allocation>,
    /// The allocations not freed yet, by their keys.
    pub live: Map<(u64, u64), u64>,
    /// The statistics of each backtrace's allocations.
    pub group_stats: Seq<GroupStatistics>,
    /// Each allocation, deallocation and reallocation, with its time.
    pub operations: Seq<(Timestamp, OperationId)>,
    pub total_allocated: u64,
    pub total_allocated_count: u64,
    pub total_freed: u64,
    pub total_freed_count: u64,
    /// The latest time of an allocation, deallocation or reallocation.
    pub last_timestamp: Timestamp,
    /// The marker that new allocations get.
    pub marker: u32,
    /// What to add to a recorded time to get the wall-clock time, modulo
    /// 2^64.
    pub timestamp_to_wall_clock: u64,
    /// The backtrace that each raw backtrace identifier stands for.
    pub backtrace_ids: Map<u64, u64>,
    /// Where each backtrace's frames start in the storage, and how many.
    pub backtraces: Seq<(u32, u32)>,
    /// The frames of all backtraces, one after another.
    pub backtraces_storage: Seq<usize>,
    /// The backtrace of each list of addresses seen so far.
    pub backtrace_lookup: Map<Seq<u64>, u64>,
    pub frames: Seq<Frame>,
    /// The frame of each code address seen so far.
    pub frames_by_address: Map<u64, u64>,
    /// Each thread's latest full backtrace, which its partial ones extend.
    pub previous_backtraces: Map<u32, Seq<u64>>,
    pub maximum_backtrace_depth: u32,
    pub mallopts: Seq<Mallopt>,
    pub mmap_operations: Seq<MmapOperation>,
    /// The strings that the recording names, each once.
    pub strings: Seq<Seq<char>>,
    /// The string, as its place in `strings` plus one, that each of the
    /// recording's string identifiers stands for.
    pub string_ids: Map<u64, u64>,
}

impl LoaderState {
    /// The invariant of the loader: live keys lead to allocations that are
    /// neither freed nor reallocated, no two keys to the same one; every
    /// allocation has its backtrace's statistics and a usable size that
    /// fits; a reallocation comes after what it was made from, which points
    /// at it.
    pub open spec fn valid(self) -> bool {
        &&& forall|k: (u64, u64)|
            #![trigger self.live[k]]
            self.live.contains_key(k) ==> {
                &&& self.live[k] < self.allocations.len()
                &&& self.allocations[self.live[k] as int].deallocation is None
                &&& self.allocations[self.live[k] as int].reallocation is None
            }
        &&& forall|k1: (u64, u64), k2: (u64, u64)|
            #![trigger self.live[k1], self.live[k2]]
            self.live.contains_key(k1) && self.live.contains_key(k2) && self.live[k1] == self.live[k2]
                ==> k1 == k2
        &&& forall|i: int|
            #![trigger self.allocations[i]]
            0 <= i < self.allocations.len() ==> {
                &&& self.allocations[i].backtrace.0 < self.group_stats.len()
                &&& usable(self.allocations[i]) <= u64::MAX
                &&& self.allocations[i].reallocated_from matches Some(p) ==> {
                    &&& p.0 < i
                    &&& self.allocations[p.0 as int].reallocation == Some(AllocationId(i as u64))
                }
            }
        &&& self.group_stats.len() == self.backtraces.len()
        &&& self.backtraces.len() <= u32::MAX
        &&& self.backtraces_storage.len() <= u32::MAX
        &&& forall|raw: u64|
            #![trigger self.backtrace_ids[raw]]
            self.backtrace_ids.contains_key(raw) ==> self.backtrace_ids[raw] < self.backtraces.len()
        &&& forall|l: Seq<u64>|
            #![trigger self.backtrace_lookup[l]]
            self.backtrace_lookup.contains_key(l) ==> self.backtrace_lookup[l] < self.backtraces.len()
        &&& frames_valid(self.frames, self.frames_by_address, self.backtraces_storage)
        &&& forall|i: int|
            #![trigger self.backtraces[i]]
            0 <= i < self.backtraces.len() ==> self.backtraces[i].0 + self.backtraces[i].1
                <= self.backtraces_storage.len()
        &&& forall|i: int, j: int|
            #![trigger self.strings[i], self.strings[j]]
            0 <= i < j < self.strings.len() ==> self.strings[i] != self.strings[j]
        &&& self.strings.len() <= u32::MAX
        &&& forall|raw: u64|
            #![trigger self.string_ids[raw]]
            self.string_ids.contains_key(raw) ==> 1 <= self.string_ids[raw] <= self.strings.len()
    }

    /// The place of string `s` in the table.
    pub open spec fn place_of(self, s: Seq<char>) -> int {
        choose|i: int| 0 <= i < self.strings.len() && self.strings[i] == s
    }

    /// A string announced under the identifier `id`: it is added to the
    /// table unless it is there already, and the identifier stands for it.
    pub open spec fn after_string(self, id: u32, s: Seq<char>) -> LoaderState {
        if self.strings.contains(s) {
            LoaderState { string_ids: self.string_ids.insert(id as u64, (self.place_of(s) + 1) as u64), ..self }
        } else {
            LoaderState {
                strings: self.strings.push(s),
                string_ids: self.string_ids.insert(id as u64, (self.strings.len() + 1) as u64),
                ..self
            }
        }
    }

    /// The string that an identifier of a decoded frame names: none for
    /// all ones.
    pub open spec fn string_ref(self, raw: u32) -> Option<StringId> {
        if raw == 0xFFFF_FFFF {
            None
        } else {
            Some(StringId(self.string_ids[raw as u64] as u32))
        }
    }

    /// The identifier names no string, or one that was announced.
    pub open spec fn known_ref(self, raw: u32) -> bool {
        raw == 0xFFFF_FFFF || self.string_ids.contains_key(raw as u64)
    }

    /// The frame that a decoded frame describes.
    pub open spec fn decoded_frame(
        self,
        address: u64,
        library: u32,
        raw_function: u32,
        function: u32,
        source: u32,
        line: u32,
        column: u32,
        is_inline: bool,
    ) -> Frame {
        Frame {
            address: CodePointer(address),
            count: 0,
            is_inline,
            library: self.string_ref(library),
            function: self.string_ref(function),
            raw_function: self.string_ref(raw_function),
            source: self.string_ref(source),
            line: if line == 0xFFFF_FFFF { None } else { nonzero(line) },
            column: if column == 0xFFFF_FFFF { None } else { nonzero(column) },
        }
    }

    /// A decoded backtrace of `frames`: a new backtrace with these frames,
    /// which its own position stands for, with statistics of its own.
    pub open spec fn after_decoded_backtrace(self, frames: Seq<u32>) -> LoaderState {
        let id = self.backtraces.len();
        LoaderState {
            backtrace_ids: self.backtrace_ids.insert(id as u64, id as u64),
            backtraces: self.backtraces.push((self.backtraces_storage.len() as u32, frames.len() as u32)),
            backtraces_storage: self.backtraces_storage + frames.map_values(|f: u32| f as usize),
            maximum_backtrace_depth: if frames.len() > self.maximum_backtrace_depth {
                frames.len() as u32
            } else {
                self.maximum_backtrace_depth
            },
            group_stats: self.group_stats.push(empty_stats()),
            ..self
        }
    }

    /// An allocation of `size` bytes at `pointer`, made at `timestamp` from
    /// backtrace `backtrace`: it is recorded unless its key is live already.
    pub open spec fn after_alloc(
        self,
        timestamp: Timestamp,
        pointer: u64,
        size: u64,
        backtrace: u32,
        thread: u32,
        flags: u32,
        extra_usable_space: u32,
    ) -> LoaderState {
        let key = pointer_key(pointer);
        let id = self.allocations.len();
        let allocation = fresh_allocation(
            pointer,
            timestamp,
            size,
            thread,
            backtrace,
            flags,
            extra_usable_space,
            self.marker,
            None,
        );
        if self.live.contains_key(key) {
            LoaderState { last_timestamp: later(self.last_timestamp, timestamp), ..self }
        } else {
            LoaderState {
                allocations: self.allocations.push(allocation),
                live: self.live.insert(key, id as u64),
                group_stats: self.group_stats.update(
                    backtrace as int,
                    stats_after_alloc(
                        self.group_stats[backtrace as int],
                        timestamp,
                        (size + extra_usable_space) as u64,
                    ),
                ),
                operations: self.operations.push((timestamp, OperationId(id as u64))),
                total_allocated: (self.total_allocated + size) as u64,
                total_allocated_count: (self.total_allocated_count + 1) as u64,
                last_timestamp: later(self.last_timestamp, timestamp),
                ..self
            }
        }
    }

    /// Whether the counters can take the allocation.
    pub open spec fn can_alloc(self, pointer: u64, size: u64, backtrace: u32, extra_usable_space: u32) -> bool {
        &&& backtrace < self.group_stats.len()
        &&& !self.live.contains_key(pointer_key(pointer)) ==> {
            &&& size + extra_usable_space <= u64::MAX
            &&& room_to_allocate(self.group_stats[backtrace as int], size + extra_usable_space)
            &&& self.total_allocated + size <= u64::MAX
            &&& self.total_allocated_count + 1 <= u64::MAX
        }
    }

    /// The allocation under `key` freed, with `deallocation` and
    /// `reallocation` recorded on it, and its size counted as freed.
    pub open spec fn released(
        self,
        key: (u64, u64),
        deallocation: Deallocation,
        reallocation: Option<AllocationId>,
    ) -> LoaderState {
        let id = self.live[key] as int;
        let a = self.allocations[id];
        LoaderState {
            allocations: self.allocations.update(
                id,
                Allocation { deallocation: Some(deallocation), reallocation, ..a },
            ),
            live: self.live.remove(key),
            group_stats: self.group_stats.update(
                a.backtrace.0 as int,
                stats_after_free(self.group_stats[a.backtrace.0 as int], usable(a) as u64),
            ),
            total_freed: (self.total_freed + a.size) as u64,
            total_freed_count: (self.total_freed_count + 1) as u64,
            ..self
        }
    }

    /// Whether the counters can take the release of what `key` leads to.
    pub open spec fn can_release(self, key: (u64, u64)) -> bool {
        self.live.contains_key(key) ==> {
            let a = self.allocations[self.live[key] as int];
            &&& self.total_freed + a.size <= u64::MAX
            &&& self.total_freed_count + 1 <= u64::MAX
            &&& room_to_free(self.group_stats[a.backtrace.0 as int], usable(a))
        }
    }

    /// A deallocation of `pointer` at `timestamp`: the live allocation
    /// there, if any, is marked freed.
    pub open spec fn after_free(
        self,
        timestamp: Timestamp,
        pointer: u64,
        backtrace: Option<BacktraceId>,
        thread: u32,
    ) -> LoaderState {
        let key = pointer_key(pointer);
        let s = LoaderState { last_timestamp: later(self.last_timestamp, timestamp), ..self };
        if !self.live.contains_key(key) {
            s
        } else {
            let id = self.live[key];
            let freed = s.released(
                key,
                Deallocation { timestamp, thread, backtrace },
                self.allocations[id as int].reallocation,
            );
            LoaderState {
                operations: freed.operations.push((timestamp, OperationId((1u64 << 62u64) | id))),
                ..freed
            }
        }
    }

    /// A reallocation at `timestamp` of what lives at `old_pointer` into
    /// `size` bytes at `new_pointer`: the old allocation is freed and points
    /// at the new one, which is recorded unless its key is live already.
    pub open spec fn after_realloc(
        self,
        timestamp: Timestamp,
        old_pointer: u64,
        new_pointer: u64,
        size: u64,
        backtrace: u32,
        thread: u32,
        flags: u32,
        extra_usable_space: u32,
    ) -> LoaderState {
        let old_key = pointer_key(old_pointer);
        let new_key = pointer_key(new_pointer);
        let s = LoaderState { last_timestamp: later(self.last_timestamp, timestamp), ..self };
        if !self.live.contains_key(old_key) {
            s
        } else {
            let old_id = self.live[old_key];
            let new_id = self.allocations.len();
            let freed = s.released(
                old_key,
                Deallocation { timestamp, thread, backtrace: Some(BacktraceId(backtrace)) },
                Some(AllocationId(new_id as u64)),
            );
            if freed.live.contains_key(new_key) {
                freed
            } else {
                let allocation = fresh_allocation(
                    new_pointer,
                    timestamp,
                    size,
                    thread,
                    backtrace,
                    flags,
                    extra_usable_space,
                    self.marker,
                    Some(AllocationId(old_id)),
                );
                LoaderState {
                    allocations: freed.allocations.push(allocation),
                    live: freed.live.insert(new_key, new_id as u64),
                    group_stats: freed.group_stats.update(
                        backtrace as int,
                        stats_after_alloc(
                            freed.group_stats[backtrace as int],
                            timestamp,
                            (size + extra_usable_space) as u64,
                        ),
                    ),
                    operations: freed.operations.push(
                        (timestamp, OperationId((2u64 << 62u64) | new_id as u64)),
                    ),
                    total_allocated: (freed.total_allocated + size) as u64,
                    total_allocated_count: (freed.total_allocated_count + 1) as u64,
                    ..freed
                }
            }
        }
    }

    /// Freeing what lives at `pointer` counts it among its group's frees
    /// once: the group's freed count grows by one and its freed bytes by
    /// exactly the allocation's usable size, while what it allocated stays
    /// as it was; every other group is left alone.
    pub proof fn lemma_free_counts_usable_bytes(
        self,
        timestamp: Timestamp,
        pointer: u64,
        backtrace: Option<BacktraceId>,
        thread: u32,
        g: int,
    )
        requires
            self.valid(),
            self.live.contains_key(pointer_key(pointer)),
            self.can_release(pointer_key(pointer)),
            0 <= g < self.group_stats.len(),
        ensures
            ({
                let a = self.allocations[self.live[pointer_key(pointer)] as int];
                let before = self.group_stats[g];
                let after = self.after_free(timestamp, pointer, backtrace, thread).group_stats[g];
                &&& self.after_free(timestamp, pointer, backtrace, thread).group_stats.len() == self.group_stats.len()
                &&& g == a.backtrace.0 ==> {
                    &&& after.free_size == before.free_size + a.size + a.extra_usable_space
                    &&& after.free_count == before.free_count + 1
                    &&& after.alloc_size == before.alloc_size
                    &&& after.alloc_count == before.alloc_count
                }
                &&& g != a.backtrace.0 ==> after == before
            }),
    {
        let a = self.allocations[self.live[pointer_key(pointer)] as int];
        assert(a == self.allocations[self.live[pointer_key(pointer)] as int]);
    }

    /// A reallocation counts the allocation it replaces among its group's
    /// frees once, whether or not the new one is recorded: that group's
    /// freed count grows by one and its freed bytes by exactly the old
    /// allocation's usable size; no other group's frees change.
    pub proof fn lemma_realloc_counts_usable_bytes(
        self,
        timestamp: Timestamp,
        old_pointer: u64,
        new_pointer: u64,
        size: u64,
        backtrace: u32,
        thread: u32,
        flags: u32,
        extra_usable_space: u32,
        g: int,
    )
        requires
            self.valid(),
            self.live.contains_key(pointer_key(old_pointer)),
            self.can_realloc(old_pointer, new_pointer, size, backtrace, extra_usable_space),
            0 <= g < self.group_stats.len(),
        ensures
            ({
                let old = self.allocations[self.live[pointer_key(old_pointer)] as int];
                let t = self.after_realloc(
                    timestamp,
                    old_pointer,
                    new_pointer,
                    size,
                    backtrace,
                    thread,
                    flags,
                    extra_usable_space,
                );
                &&& t.group_stats.len() == self.group_stats.len()
                &&& t.group_stats[g].free_size == self.group_stats[g].free_size + (if g == old.backtrace.0 {
                    old.size + old.extra_usable_space
                } else {
                    0
                })
                &&& t.group_stats[g].free_count == self.group_stats[g].free_count + (if g == old.backtrace.0 {
                    1int
                } else {
                    0
                })
            }),
    {
        let old = self.allocations[self.live[pointer_key(old_pointer)] as int];
        assert(old == self.allocations[self.live[pointer_key(old_pointer)] as int]);
    }

    /// Whether the counters can take the reallocation.
    pub open spec fn can_realloc(
        self,
        old_pointer: u64,
        new_pointer: u64,
        size: u64,
        backtrace: u32,
        extra_usable_space: u32,
    ) -> bool {
        let old_key = pointer_key(old_pointer);
        &&& backtrace < self.group_stats.len()
        &&& self.can_release(old_key)
        &&& self.live.contains_key(old_key) ==> self.released(
            old_key,
            Deallocation { timestamp: Timestamp(0), thread: 0, backtrace: None },
            None,
        ).can_alloc(new_pointer, size, backtrace, extra_usable_space)
    }

    /// The time of an event, moved onto the wall clock.
    pub open spec fn shifted(self, timestamp: Timestamp) -> Timestamp {
        Timestamp(timestamp.0.wrapping_add(self.timestamp_to_wall_clock))
    }

    /// The backtrace that a raw identifier stands for.
    pub open spec fn backtrace_of(self, raw: u64) -> u32 {
        self.backtrace_ids[raw] as u32
    }

    /// A backtrace of `addresses` announced under `raw_id`: the raw
    /// identifier stands for the backtrace of the same addresses if there
    /// is one, or else for a new backtrace whose frames are stored after
    /// those there are, with statistics of its own.
    pub open spec fn after_backtrace(self, raw_id: u64, addresses: Seq<u64>) -> LoaderState {
        if self.backtrace_lookup.contains_key(addresses) {
            LoaderState {
                backtrace_ids: self.backtrace_ids.insert(raw_id, self.backtrace_lookup[addresses]),
                ..self
            }
        } else {
            let id = self.backtraces.len() as u64;
            let (frames, by_address, storage) = resolve(
                self.frames,
                self.frames_by_address,
                self.backtraces_storage,
                addresses,
            );
            LoaderState {
                backtrace_ids: self.backtrace_ids.insert(raw_id, id),
                backtrace_lookup: self.backtrace_lookup.insert(addresses, id),
                backtraces: self.backtraces.push(
                    (self.backtraces_storage.len() as u32, addresses.len() as u32),
                ),
                backtraces_storage: storage,
                frames,
                frames_by_address: by_address,
                maximum_backtrace_depth: if addresses.len() > self.maximum_backtrace_depth {
                    addresses.len() as u32
                } else {
                    self.maximum_backtrace_depth
                },
                group_stats: self.group_stats.push(empty_stats()),
                ..self
            }
        }
    }

    /// Whether there is room for a new backtrace of `addresses`.
    pub open spec fn can_add_backtrace(self, addresses: Seq<u64>) -> bool {
        !self.backtrace_lookup.contains_key(addresses) ==> {
            &&& self.backtraces.len() < u32::MAX
            &&& self.backtraces_storage.len() + addresses.len() <= u32::MAX
        }
    }

    /// The full backtrace that a thread's partial backtrace stands for.
    pub open spec fn expanded_for(self, thread: u32, frames_invalidated: FramesInvalidated, partial: Seq<u64>) -> Seq<u64> {
        expanded_backtrace(
            if self.previous_backtraces.contains_key(thread) {
                self.previous_backtraces[thread]
            } else {
                Seq::empty()
            },
            frames_invalidated,
            partial,
        )
    }

    /// A partial backtrace of `thread`: the full backtrace it stands for is
    /// announced, and becomes the thread's latest.
    pub open spec fn after_partial_backtrace(
        self,
        raw_id: u64,
        thread: u32,
        frames_invalidated: FramesInvalidated,
        partial: Seq<u64>,
    ) -> LoaderState {
        let addresses = self.expanded_for(thread, frames_invalidated, partial);
        let s = self.after_backtrace(raw_id, addresses);
        LoaderState { previous_backtraces: s.previous_backtraces.insert(thread, addresses), ..s }
    }

    /// Whether the loader takes `event` in: the raw backtraces that it
    /// refers to are known, the header is that of this recording, and the
    /// counters, the wall clock and the backtrace storage have room for it.
    pub open spec fn accepts(self, header: HeaderBody, event: Event) -> bool {
        match event {
            Event::Header(h) => h.id == header.id && h.initial_timestamp == header.initial_timestamp,
            Event::Alloc { allocation, .. } => {
                &&& self.backtrace_ids.contains_key(allocation.backtrace)
                &&& self.can_alloc(
                    allocation.pointer,
                    allocation.size,
                    self.backtrace_of(allocation.backtrace),
                    allocation.extra_usable_space,
                )
            },
            Event::Realloc { old_pointer, allocation, .. } => {
                &&& self.backtrace_ids.contains_key(allocation.backtrace)
                &&& self.can_realloc(
                    old_pointer,
                    allocation.pointer,
                    allocation.size,
                    self.backtrace_of(allocation.backtrace),
                    allocation.extra_usable_space,
                )
            },
            Event::Free { pointer, .. } => self.can_release(pointer_key(pointer)),
            Event::Backtrace { addresses, .. } => self.can_add_backtrace(addresses@),
            Event::PartialBacktrace { thread, frames_invalidated, addresses, .. } => self.can_add_backtrace(
                self.expanded_for(thread, frames_invalidated, addresses@),
            ),
            Event::PartialBacktrace32 { thread, frames_invalidated, addresses, .. } => self.can_add_backtrace(
                self.expanded_for(thread, frames_invalidated, widened(addresses@)),
            ),
            Event::MemoryMap { backtrace, .. } => self.backtrace_ids.contains_key(backtrace),
            Event::MemoryUnmap { backtrace, .. } => self.backtrace_ids.contains_key(backtrace),
            Event::Mallopt { backtrace, .. } => self.backtrace_ids.contains_key(backtrace),
            Event::WallClock { sec, nsec, .. } => wall_clock_usecs(sec, nsec) <= u64::MAX,
            Event::String { string, .. } => self.strings.contains(string@) || self.strings.len() < u32::MAX,
            Event::DecodedFrame { library, raw_function, function, source, .. } => {
                &&& self.known_ref(library)
                &&& self.known_ref(raw_function)
                &&& self.known_ref(function)
                &&& self.known_ref(source)
            },
            Event::DecodedBacktrace { frames } => {
                &&& self.backtraces.len() < u32::MAX
                &&& self.backtraces_storage.len() + frames@.len() <= u32::MAX
                &&& forall|i: int| 0 <= i < frames@.len() ==> (#[trigger] frames@[i]) < self.frames.len()
            },
            Event::GroupStatistics { backtrace, free_count, free_size, .. } => {
                &&& self.backtrace_ids.contains_key(backtrace)
                &&& room_to_merge(
                    self.group_stats[self.backtrace_of(backtrace) as int],
                    free_count,
                    free_size,
                )
            },
            _ => true,
        }
    }

    /// What the loader knows after `event`.
    pub open spec fn next(self, event: Event) -> LoaderState {
        match event {
            Event::Alloc { timestamp, allocation } => self.after_alloc(
                self.shifted(timestamp),
                allocation.pointer,
                allocation.size,
                self.backtrace_of(allocation.backtrace),
                allocation.thread,
                allocation.flags,
                allocation.extra_usable_space,
            ),
            Event::Realloc { timestamp, old_pointer, allocation } => self.after_realloc(
                self.shifted(timestamp),
                old_pointer,
                allocation.pointer,
                allocation.size,
                self.backtrace_of(allocation.backtrace),
                allocation.thread,
                allocation.flags,
                allocation.extra_usable_space,
            ),
            Event::Free { timestamp, pointer, backtrace, thread } => self.after_free(
                self.shifted(timestamp),
                pointer,
                if self.backtrace_ids.contains_key(backtrace) {
                    Some(BacktraceId(self.backtrace_of(backtrace)))
                } else {
                    None
                },
                thread,
            ),
            Event::Backtrace { id, addresses } => self.after_backtrace(id, addresses@),
            Event::PartialBacktrace { id, thread, frames_invalidated, addresses } => self.after_partial_backtrace(
                id,
                thread,
                frames_invalidated,
                addresses@,
            ),
            Event::PartialBacktrace32 { id, thread, frames_invalidated, addresses } => self.after_partial_backtrace(
                id,
                thread,
                frames_invalidated,
                widened(addresses@),
            ),
            Event::MemoryMap {
                timestamp,
                pointer,
                length,
                backtrace,
                requested_address,
                mmap_protection,
                mmap_flags,
                file_descriptor,
                thread,
                offset,
            } => LoaderState {
                mmap_operations: self.mmap_operations.push(
                    MmapOperation::Mmap(
                        MemoryMap {
                            timestamp: self.shifted(timestamp),
                            pointer,
                            length,
                            backtrace: BacktraceId(self.backtrace_of(backtrace)),
                            requested_address,
                            mmap_protection: ProtectionFlags(mmap_protection),
                            mmap_flags: MapFlags(mmap_flags),
                            file_descriptor,
                            thread,
                            offset,
                        },
                    ),
                ),
                ..self
            },
            Event::MemoryUnmap { timestamp, pointer, length, backtrace, thread } => LoaderState {
                mmap_operations: self.mmap_operations.push(
                    MmapOperation::Munmap(
                        MemoryUnmap {
                            timestamp: self.shifted(timestamp),
                            pointer,
                            length,
                            backtrace: BacktraceId(self.backtrace_of(backtrace)),
                            thread,
                        },
                    ),
                ),
                ..self
            },
            Event::Mallopt { timestamp, backtrace, thread, param, value, result } => LoaderState {
                mallopts: self.mallopts.push(
                    Mallopt {
                        timestamp: self.shifted(timestamp),
                        backtrace: BacktraceId(self.backtrace_of(backtrace)),
                        thread,
                        kind: mallopt_kind(param),
                        value,
                        result,
                    },
                ),
                ..self
            },
            Event::WallClock { timestamp, sec, nsec } => LoaderState {
                timestamp_to_wall_clock: (wall_clock_usecs(sec, nsec) as u64).wrapping_sub(timestamp.0),
                ..self
            },
            Event::Marker { value } => LoaderState { marker: value, ..self },
            Event::GroupStatistics {
                backtrace,
                first_allocation,
                last_allocation,
                free_count,
                free_size,
                min_size,
                max_size,
            } => LoaderState {
                group_stats: self.group_stats.update(
                    self.backtrace_of(backtrace) as int,
                    stats_merged(
                        self.group_stats[self.backtrace_of(backtrace) as int],
                        self.shifted(first_allocation),
                        self.shifted(last_allocation),
                        free_count,
                        free_size,
                        min_size,
                        max_size,
                    ),
                ),
                ..self
            },
            Event::String { id, string } => self.after_string(id, string@),
            Event::DecodedFrame { address, library, raw_function, function, source, line, column, is_inline } => LoaderState {
                frames: self.frames.push(
                    self.decoded_frame(address, library, raw_function, function, source, line, column, is_inline),
                ),
                ..self
            },
            Event::DecodedBacktrace { frames } => self.after_decoded_backtrace(frames@),
            _ => self,
        }
    }
}

/// An allocation that is freed afterwards ends up recorded as freed at the
/// time of the free, by the thread that freed it, and its key is no longer
/// live; what was allocated and what was freed both grew by its size.
pub proof fn lemma_alloc_then_free(
    s: LoaderState,
    alloc_time: Timestamp,
    pointer: u64,
    size: u64,
    backtrace: u32,
    thread: u32,
    flags: u32,
    extra_usable_space: u32,
    free_time: Timestamp,
    free_backtrace: Option<BacktraceId>,
    free_thread: u32,
)
    requires
        s.valid(),
        s.allocations.len() < u64::MAX,
        !s.live.contains_key(pointer_key(pointer)),
        s.can_alloc(pointer, size, backtrace, extra_usable_space),
        s.total_freed + size <= u64::MAX,
        s.total_freed_count + 1 <= u64::MAX,
    ensures
        ({
            let allocated = s.after_alloc(alloc_time, pointer, size, backtrace, thread, flags, extra_usable_space);
            let freed = allocated.after_free(free_time, pointer, free_backtrace, free_thread);
            let a = freed.allocations[s.allocations.len() as int];
            &&& freed.allocations.len() == s.allocations.len() + 1
            &&& a.pointer == pointer
            &&& a.size == size
            &&& a.timestamp == alloc_time
            &&& a.deallocation == Some(Deallocation { timestamp: free_time, thread: free_thread, backtrace: free_backtrace })
            &&& !freed.live.contains_key(pointer_key(pointer))
            &&& freed.total_allocated == s.total_allocated + size
            &&& freed.total_freed == s.total_freed + size
            &&& freed.total_allocated_count == s.total_allocated_count + 1
            &&& freed.total_freed_count == s.total_freed_count + 1
        }),
{
    let allocated = s.after_alloc(alloc_time, pointer, size, backtrace, thread, flags, extra_usable_space);
    let key = pointer_key(pointer);
    assert(allocated.live.contains_key(key));
    assert(allocated.live[key] == s.allocations.len());
}

/// A reallocation of a live allocation into a free place makes a new
/// allocation that was reallocated from the old one, which points at it
/// and is freed at the time of the reallocation; the new place is live and
/// leads to the new allocation.
pub proof fn lemma_realloc_links(
    s: LoaderState,
    timestamp: Timestamp,
    old_pointer: u64,
    new_pointer: u64,
    size: u64,
    backtrace: u32,
    thread: u32,
    flags: u32,
    extra_usable_space: u32,
)
    requires
        s.valid(),
        s.allocations.len() < u64::MAX,
        s.live.contains_key(pointer_key(old_pointer)),
        old_pointer == new_pointer || !s.live.contains_key(pointer_key(new_pointer)),
    ensures
        ({
            let after = s.after_realloc(timestamp, old_pointer, new_pointer, size, backtrace, thread, flags, extra_usable_space);
            let old_id = s.live[pointer_key(old_pointer)];
            let new_id = s.allocations.len();
            &&& after.allocations.len() == new_id + 1
            &&& after.allocations[new_id as int].reallocated_from == Some(AllocationId(old_id))
            &&& after.allocations[new_id as int].size == size
            &&& after.allocations[new_id as int].pointer == new_pointer
            &&& after.allocations[old_id as int].reallocation == Some(AllocationId(new_id as u64))
            &&& after.allocations[old_id as int].deallocation == Some(Deallocation {
                timestamp,
                thread,
                backtrace: Some(BacktraceId(backtrace)),
            })
            &&& after.live.contains_key(pointer_key(new_pointer))
            &&& after.live[pointer_key(new_pointer)] == new_id
            &&& old_pointer != new_pointer ==> !after.live.contains_key(pointer_key(old_pointer))
        }),
{
    let old_key = pointer_key(old_pointer);
    let old_id = s.live[old_key];
    assert(old_id < s.allocations.len());
}

/// Freeing what is not live changes nothing but the latest time.
pub proof fn lemma_free_of_unknown_pointer(
    s: LoaderState,
    timestamp: Timestamp,
    pointer: u64,
    backtrace: Option<BacktraceId>,
    thread: u32,
)
    requires
        !s.live.contains_key(pointer_key(pointer)),
    ensures
        s.after_free(timestamp, pointer, backtrace, thread) == (LoaderState {
            last_timestamp: later(s.last_timestamp, timestamp),
            ..s
        }),
{
}

/// Allocating where an allocation is live changes nothing but the latest
/// time: the second allocation is not recorded.
pub proof fn lemma_duplicate_alloc_ignored(
    s: LoaderState,
    timestamp: Timestamp,
    pointer: u64,
    size: u64,
    backtrace: u32,
    thread: u32,
    flags: u32,
    extra_usable_space: u32,
)
    requires
        s.live.contains_key(pointer_key(pointer)),
    ensures
        s.after_alloc(timestamp, pointer, size, backtrace, thread, flags, extra_usable_space) == (LoaderState {
            last_timestamp: later(s.last_timestamp, timestamp),
            ..s
        }),
{
}

/// Loads a recording, one event at a time.
pub struct Loader {
    header: HeaderBody,
    group_stats: Vec<GroupStatistics>,
    operations: Vec<(Timestamp, OperationId)>,
    allocations: Vec<Allocation>,
    allocation_map: AHashMap<(u64, u64), u64>,
    total_allocated: u64,
    total_allocated_count: u64,
    total_freed: u64,
    total_freed_count: u64,
    marker: u32,
    last_timestamp: Timestamp,
    timestamp_to_wall_clock: u64,
    backtrace_remappings: AHashMap<u64, u64>,
    backtraces: Vec<(u32, u32)>,
    backtraces_storage: Vec<usize>,
    backtrace_to_id: AHashMap<Vec<u64>, u64>,
    frames: Vec<Frame>,
    frames_by_address: AHashMap<u64, u64>,
    previous_backtrace_on_thread: AHashMap<u32, Vec<u64>>,
    maximum_backtrace_depth: u32,
    mallopts: Vec<Mallopt>,
    mmap_operations: Vec<MmapOperation>,
    strings: StringTable,
    string_id_map: AHashMap<u64, u64>,
}

impl View for Loader {
    type V = LoaderState;

    closed spec fn view(&self) -> LoaderState {
        LoaderState {
            allocations: self.allocations@,
            live: key_positions(self.allocation_map),
            group_stats: self.group_stats@,
            operations: self.operations@,
            total_allocated: self.total_allocated,
            total_allocated_count: self.total_allocated_count,
            total_freed: self.total_freed,
            total_freed_count: self.total_freed_count,
            last_timestamp: self.last_timestamp,
            marker: self.marker,
            timestamp_to_wall_clock: self.timestamp_to_wall_clock,
            backtrace_ids: number_positions(self.backtrace_remappings),
            backtraces: self.backtraces@,
            backtraces_storage: self.backtraces_storage@,
            backtrace_lookup: address_list_positions(self.backtrace_to_id),
            frames: self.frames@,
            frames_by_address: number_positions(self.frames_by_address),
            previous_backtraces: thread_address_lists(self.previous_backtrace_on_thread),
            maximum_backtrace_depth: self.maximum_backtrace_depth,
            mallopts: self.mallopts@,
            mmap_operations: self.mmap_operations@,
            strings: table_strings(self.strings),
            string_ids: number_positions(self.string_id_map),
        }
    }
}

/// Stores the frames of `addresses` one after another: the frame already
/// known for an address, or else a new frame of which only the address is
/// known.
fn resolve_frames(
    frames: &mut Vec<Frame>,
    by_address: &mut AHashMap<u64, u64>,
    storage: &mut Vec<usize>,
    addresses: &Vec<u64>,
)
    requires
        frames_valid(old(frames)@, number_positions(*old(by_address)), old(storage)@),
    ensures
        (final(frames)@, number_positions(*final(by_address)), final(storage)@) == resolve(
            old(frames)@,
            number_positions(*old(by_address)),
            old(storage)@,
            addresses@,
        ),
        frames_valid(final(frames)@, number_positions(*final(by_address)), final(storage)@),
        final(storage)@.len() == old(storage)@.len() + addresses@.len(),
{
    let ghost f0 = frames@;
    let ghost m0 = number_positions(*by_address);
    let ghost s0 = storage@;
    let mut i: usize = 0;
    proof {
        assert(addresses@.take(0) =~= Seq::<u64>::empty());
    }
    while i < addresses.len()
        invariant
            0 <= i <= addresses@.len(),
            (frames@, number_positions(*by_address), storage@) == resolve(f0, m0, s0, addresses@.take(i as int)),
            frames_valid(frames@, number_positions(*by_address), storage@),
            storage@.len() == s0.len() + i,
        decreases addresses@.len() - i,
    {
        let ghost before = (frames@, number_positions(*by_address), storage@);
        let raw = addresses[i];
        let address: u64 = if raw > 0 { raw - 1 } else { 0 };
        match number_positions_get(by_address, address) {
            Some(frame_id) => {
                storage.push(frame_id as usize);
            },
            None => {
                let frame_id = frames.len();
                frames.push(Frame::new_unknown(CodePointer::new(address)));
                storage.push(frame_id);
                number_positions_insert(by_address, address, frame_id as u64);
            },
        }
        proof {
            let next = addresses@.take(i + 1);
            assert(next.drop_last() =~= addresses@.take(i as int));
            assert(next.last() == raw);
            assert(address == frame_address(raw));
            assert(frames@ =~= resolve(f0, m0, s0, next).0);
            assert(number_positions(*by_address) =~= resolve(f0, m0, s0, next).1);
            assert(storage@ =~= resolve(f0, m0, s0, next).2);
            let m = number_positions(*by_address);
            assert forall|j: int| #![trigger storage@[j]] 0 <= j < storage@.len() implies storage@[j] < frames@.len() by {
                if j < before.2.len() {
                    assert(storage@[j] == before.2[j]);
                }
            }
            assert forall|a: u64| #![trigger m[a]] m.contains_key(a) implies m[a] < frames@.len() by {
                if a != address {
                    assert(m[a] == before.1[a]);
                }
            }
        }
        i = i + 1;
    }
    proof {
        assert(addresses@.take(addresses@.len() as int) =~= addresses@);
    }
}

/// Moving the latest time keeps the loader's invariant.
proof fn lemma_valid_with_time(s: LoaderState, t: Timestamp)
    requires
        s.valid(),
    ensures
        (LoaderState { last_timestamp: t, ..s }).valid(),
{
}

/// The flags of an allocation, from the raw flags of its event.
fn parse_flags(raw: u32) -> (flags: u8)
    ensures
        flags == allocation_flags(raw),
        flags & 64 == 0,
{
    let prev_in_use: u8 = if raw & 1 != 0 { 1 } else { 0 };
    let mmaped: u8 = if raw & 2 != 0 { 2 } else { 0 };
    let non_main_arena: u8 = if raw & 4 != 0 { 4 } else { 0 };
    let calloc: u8 = if raw & 0x8000_0000 != 0 { 128 } else { 0 };
    proof {
        assert(allocation_flags(raw) & 64 == 0) by (bit_vector);
    }
    (prev_in_use | mmaped) | (non_main_arena | calloc)
}

/// The later of two timestamps.
pub fn later_of(a: Timestamp, b: Timestamp) -> (r: Timestamp)
    ensures
        r == later(a, b),
{
    if b.0 > a.0 {
        b
    } else {
        a
    }
}

/// The earlier of two timestamps.
pub fn earlier_of(a: Timestamp, b: Timestamp) -> (r: Timestamp)
    ensures
        r == earlier(a, b),
{
    if b.0 < a.0 {
        b
    } else {
        a
    }
}

fn allocated_stats(stats: &GroupStatistics, timestamp: Timestamp, usable_size: u64) -> (r: GroupStatistics)
    requires
        room_to_allocate(*stats, usable_size as int),
    ensures
        r == stats_after_alloc(*stats, timestamp, usable_size),
{
    GroupStatistics {
        first_allocation: earlier_of(stats.first_allocation, timestamp),
        last_allocation: later_of(stats.last_allocation, timestamp),
        alloc_count: stats.alloc_count + 1,
        alloc_size: stats.alloc_size + usable_size,
        free_count: stats.free_count,
        free_size: stats.free_size,
        min_size: if usable_size < stats.min_size { usable_size } else { stats.min_size },
        max_size: if usable_size > stats.max_size { usable_size } else { stats.max_size },
    }
}

fn freed_stats(stats: &GroupStatistics, usable_size: u64) -> (r: GroupStatistics)
    requires
        room_to_free(*stats, usable_size as int),
    ensures
        r == stats_after_free(*stats, usable_size),
{
    GroupStatistics {
        first_allocation: stats.first_allocation,
        last_allocation: stats.last_allocation,
        alloc_count: stats.alloc_count,
        alloc_size: stats.alloc_size,
        free_count: stats.free_count + 1,
        free_size: stats.free_size + usable_size,
        min_size: stats.min_size,
        max_size: stats.max_size,
    }
}

fn merged_stats(
    stats: &GroupStatistics,
    first_allocation: Timestamp,
    last_allocation: Timestamp,
    free_count: u64,
    free_size: u64,
    min_size: u64,
    max_size: u64,
) -> (r: GroupStatistics)
    requires
        room_to_merge(*stats, free_count, free_size),
    ensures
        r == stats_merged(*stats, first_allocation, last_allocation, free_count, free_size, min_size, max_size),
{
    GroupStatistics {
        first_allocation: earlier_of(stats.first_allocation, first_allocation),
        last_allocation: later_of(stats.last_allocation, last_allocation),
        alloc_count: stats.alloc_count + free_count,
        alloc_size: stats.alloc_size + free_size,
        free_count: stats.free_count + free_count,
        free_size: stats.free_size + free_size,
        min_size: if min_size < stats.min_size { min_size } else { stats.min_size },
        max_size: if max_size > stats.max_size { max_size } else { stats.max_size },
    }
}

/// The 32-bit addresses, widened.
pub fn widen(addresses: &Vec<u32>) -> (wide: Vec<u64>)
    ensures
        wide@ == widened(addresses@),
{
    let mut wide: Vec<u64> = Vec::new();
    let mut i: usize = 0;
    while i < addresses.len()
        invariant
            0 <= i <= addresses@.len(),
            wide@ == widened(addresses@.take(i as int)),
        decreases addresses@.len() - i,
    {
        wide.push(addresses[i] as u64);
        i = i + 1;
        proof {
            assert(widened(addresses@.take(i as int)) =~= widened(addresses@.take(i - 1)).push(
                addresses@[i - 1] as u64,
            ));
        }
    }
    proof {
        assert(addresses@.take(addresses@.len() as int) =~= addresses@);
    }
    wide
}

impl Loader {
    pub closed spec fn wf(&self) -> bool {
        self@.valid()
    }

    /// Marks the live allocation under `key` as freed, and takes the key out.
    fn release(&mut self, key: (u64, u64), deallocation: Deallocation, reallocation: Option<AllocationId>) -> (id: Option<u64>)
        requires
            old(self).wf(),
            old(self)@.can_release(key),
        ensures
            final(self).recording() == old(self).recording(),
            final(self).wf(),
            id == (if old(self)@.live.contains_key(key) { Some(old(self)@.live[key]) } else { None::<u64> }),
            final(self)@ == (if old(self)@.live.contains_key(key) {
                old(self)@.released(key, deallocation, reallocation)
            } else {
                old(self)@
            }),
    {
        let removed = key_positions_remove(&mut self.allocation_map, key);
        let allocation_id = match removed {
            Some(allocation_id) => allocation_id,
            None => {
                proof {
                    assert(self@.live =~= old(self)@.live);
                    assert(self@ == old(self)@);
                }
                return None;
            },
        };
        proof {
            let o = old(self)@;
            assert(o.live[key] == allocation_id);
        }
        let index = allocation_id as usize;
        let mut allocation = self.allocations[index];
        let ghost before = allocation;
        allocation.deallocation = Some(deallocation);
        allocation.reallocation = reallocation;
        self.allocations.set(index, allocation);
        self.total_freed = self.total_freed + allocation.size;
        self.total_freed_count = self.total_freed_count + 1;
        let group = allocation.backtrace.0 as usize;
        let new_stats = freed_stats(&self.group_stats[group], allocation.usable_size());
        self.group_stats.set(group, new_stats);
        proof {
            let s = self@;
            let o = old(self)@;
            assert(allocation == Allocation { deallocation: Some(deallocation), reallocation, ..before });
            assert(s =~= o.released(key, deallocation, reallocation));
        }
        Some(allocation_id)
    }

    fn handle_free(&mut self, timestamp: Timestamp, pointer: u64, backtrace: Option<BacktraceId>, thread: u32)
        requires
            old(self).wf(),
            old(self)@.can_release(pointer_key(pointer)),
        ensures
            final(self).recording() == old(self).recording(),
            final(self).wf(),
            final(self)@ == old(self)@.after_free(timestamp, pointer, backtrace, thread),
    {
        self.last_timestamp = later_of(self.last_timestamp, timestamp);
        proof {
            lemma_valid_with_time(old(self)@, self.last_timestamp);
            assert(self@ == (LoaderState { last_timestamp: self.last_timestamp, ..old(self)@ }));
        }
        let key = (0u64, pointer);
        let ghost before = self@;
        proof {
            if before.live.contains_key(key) {
                assert(before.allocations[before.live[key] as int].reallocation is None);
            }
        }
        let released = self.release(key, Deallocation { timestamp, thread, backtrace }, None);
        match released {
            Some(allocation_id) => {
                self.operations.push(
                    (timestamp, OperationId::new_deallocation(AllocationId::new(allocation_id))),
                );
            },
            None => {},
        }
    }

    fn handle_realloc(
        &mut self,
        timestamp: Timestamp,
        old_pointer: u64,
        new_pointer: u64,
        size: u64,
        backtrace: BacktraceId,
        thread: u32,
        flags: u32,
        extra_usable_space: u32,
    )
        requires
            old(self).wf(),
            old(self)@.can_realloc(old_pointer, new_pointer, size, backtrace.0, extra_usable_space),
        ensures
            final(self).recording() == old(self).recording(),
            final(self).wf(),
            final(self)@ == old(self)@.after_realloc(
                timestamp,
                old_pointer,
                new_pointer,
                size,
                backtrace.0,
                thread,
                flags,
                extra_usable_space,
            ),
    {
        self.last_timestamp = later_of(self.last_timestamp, timestamp);
        proof {
            lemma_valid_with_time(old(self)@, self.last_timestamp);
            assert(self@ == (LoaderState { last_timestamp: self.last_timestamp, ..old(self)@ }));
        }
        let old_key = (0u64, old_pointer);
        let reallocation_id = AllocationId::new(self.allocations.len() as u64);
        let ghost start = self@;
        let released = self.release(
            old_key,
            Deallocation { timestamp, thread, backtrace: Some(backtrace) },
            Some(reallocation_id),
        );
        let allocation_id = match released {
            Some(allocation_id) => allocation_id,
            None => return ,
        };
        let ghost freed = self@;
        let allocation_flags = parse_flags(flags);
        let reallocation = Allocation {
            pointer: new_pointer,
            timestamp,
            thread,
            size,
            backtrace,
            deallocation: None,
            reallocation: None,
            reallocated_from: Some(AllocationId::new(allocation_id)),
            first_allocation_in_chain: None,
            position_in_chain: 0,
            flags: allocation_flags,
            extra_usable_space,
            marker: self.marker,
            preceding_free_space: 0,
        };
        let new_key = (0u64, new_pointer);
        if key_positions_contains(&self.allocation_map, new_key) {
            return ;
        }
        let index = backtrace.0 as usize;
        let new_stats = allocated_stats(&self.group_stats[index], timestamp, reallocation.usable_size());
        self.group_stats.set(index, new_stats);
        self.allocations.push(reallocation);
        key_positions_insert(&mut self.allocation_map, new_key, reallocation_id.0);
        self.total_allocated = self.total_allocated + size;
        self.total_allocated_count = self.total_allocated_count + 1;
        self.operations.push((timestamp, OperationId::new_reallocation(reallocation_id)));
        proof {
            let s = self@;
            let o = freed;
            assert(s.allocations =~= o.allocations.push(reallocation));
            assert forall|k: (u64, u64)|
                #![trigger s.live[k]]
                s.live.contains_key(k) implies {
                    &&& s.live[k] < s.allocations.len()
                    &&& s.allocations[s.live[k] as int].deallocation is None
                    &&& s.allocations[s.live[k] as int].reallocation is None
                } by {
                if k != new_key {
                    assert(o.live[k] == s.live[k]);
                }
            }
            assert forall|k1: (u64, u64), k2: (u64, u64)|
                #![trigger s.live[k1], s.live[k2]]
                s.live.contains_key(k1) && s.live.contains_key(k2) && s.live[k1] == s.live[k2]
                    implies k1 == k2 by {
                if k1 != new_key && k2 != new_key {
                    assert(o.live[k1] == s.live[k1]);
                    assert(o.live[k2] == s.live[k2]);
                } else if k1 != new_key {
                    assert(o.live[k1] == s.live[k1]);
                } else if k2 != new_key {
                    assert(o.live[k2] == s.live[k2]);
                }
            }
            assert forall|i: int|
                #![trigger s.allocations[i]]
                0 <= i < s.allocations.len() implies {
                    &&& s.allocations[i].backtrace.0 < s.group_stats.len()
                    &&& usable(s.allocations[i]) <= u64::MAX
                    &&& s.allocations[i].reallocated_from matches Some(p) ==> {
                        &&& p.0 < i
                        &&& s.allocations[p.0 as int].reallocation == Some(AllocationId(i as u64))
                    }
                } by {
                if i < o.allocations.len() {
                    assert(o.allocations[i] == s.allocations[i]);
                }
            }
            assert(s =~= start.after_realloc(
                timestamp,
                old_pointer,
                new_pointer,
                size,
                backtrace.0,
                thread,
                flags,
                extra_usable_space,
            ));
        }
    }

    /// The header of the recording being loaded.
    pub closed spec fn recording(&self) -> HeaderBody {
        self.header
    }

    /// A loader for the recording that `header` opens.
    pub fn new(header: HeaderBody) -> (loader: Loader)
        requires
            wall_clock_usecs(header.wall_clock_secs, header.wall_clock_nsecs) <= u64::MAX,
        ensures
            loader.wf(),
            loader@ == initial_state(header),
            loader.recording() == header,
    {
        let timestamp_to_wall_clock = Timestamp::from_timespec(
            header.wall_clock_secs,
            header.wall_clock_nsecs,
        ).as_usecs().wrapping_sub(header.timestamp.as_usecs());
        let loader = Loader {
            header,
            group_stats: Vec::new(),
            operations: Vec::new(),
            allocations: Vec::new(),
            allocation_map: key_positions_new(),
            total_allocated: 0,
            total_allocated_count: 0,
            total_freed: 0,
            total_freed_count: 0,
            marker: 0,
            last_timestamp: Timestamp::min(),
            timestamp_to_wall_clock,
            backtrace_remappings: number_positions_new(),
            backtraces: Vec::new(),
            backtraces_storage: Vec::new(),
            backtrace_to_id: address_list_positions_new(),
            frames: Vec::new(),
            frames_by_address: number_positions_new(),
            previous_backtrace_on_thread: thread_address_lists_new(),
            maximum_backtrace_depth: 0,
            mallopts: Vec::new(),
            mmap_operations: Vec::new(),
            strings: table_new(),
            string_id_map: number_positions_new(),
        };
        proof {
            assert(loader@ =~= initial_state(loader.header));
        }
        loader
    }

    fn shift_timestamp(&self, timestamp: Timestamp) -> (r: Timestamp)
        ensures
            r == self@.shifted(timestamp),
    {
        Timestamp::from_usecs(timestamp.as_usecs().wrapping_add(self.timestamp_to_wall_clock))
    }

    /// The backtrace that a raw identifier stands for, if it was announced.
    /// How many frames the loader knows.
    pub(crate) fn frame_count(&self) -> (n: usize)
        requires
            self.wf(),
        ensures
            n == self@.frames.len(),
    {
        self.frames.len()
    }

    /// How many backtraces the loader knows.
    pub(crate) fn backtrace_count(&self) -> (n: usize)
        requires
            self.wf(),
        ensures
            n == self@.backtraces.len(),
    {
        self.backtraces.len()
    }

    pub(crate) fn get_frame(&self, id: usize) -> (frame: &Frame)
        requires
            self.wf(),
            id < self@.frames.len(),
        ensures
            *frame == self@.frames[id as int],
    {
        &self.frames[id]
    }

    /// The frames of backtrace `b`, innermost first.
    pub(crate) fn stored_frames(&self, b: usize) -> (ids: Vec<usize>)
        requires
            self.wf(),
            b < self@.backtraces.len(),
        ensures
            ids@ == backtrace_frames(self@.backtraces, self@.backtraces_storage, b as int),
    {
        let (offset, length) = self.backtraces[b];
        proof {
            assert(self@.backtraces[b as int].0 + self@.backtraces[b as int].1 <= self@.backtraces_storage.len());
        }
        let start = offset as usize;
        let end = start + length as usize;
        let mut ids: Vec<usize> = Vec::new();
        let mut i: usize = start;
        while i < end
            invariant
                start <= i <= end,
                end <= self.backtraces_storage@.len(),
                ids@ == self.backtraces_storage@.subrange(start as int, i as int),
            decreases end - i,
        {
            ids.push(self.backtraces_storage[i]);
            proof {
                assert(ids@ =~= self.backtraces_storage@.subrange(start as int, i + 1));
            }
            i = i + 1;
        }
        ids
    }

    pub(crate) fn lookup_backtrace(&self, raw: u64) -> (id: Option<BacktraceId>)
        requires
            self.wf(),
        ensures
            id == (if self@.backtrace_ids.contains_key(raw) {
                Some(BacktraceId(self@.backtrace_of(raw)))
            } else {
                None::<BacktraceId>
            }),
    {
        match number_positions_get(&self.backtrace_remappings, raw) {
            Some(id) => Some(BacktraceId::new(id as u32)),
            None => None,
        }
    }

    /// A thread's partial backtrace, expanded into the full one and
    /// announced under `raw_id`; the thread's latest backtrace is that.
    fn add_partial_backtrace(
        &mut self,
        raw_id: u64,
        thread: u32,
        frames_invalidated: FramesInvalidated,
        partial: &Vec<u64>,
    )
        requires
            old(self).wf(),
            old(self)@.can_add_backtrace(old(self)@.expanded_for(thread, frames_invalidated, partial@)),
        ensures
            final(self).recording() == old(self).recording(),
            final(self).wf(),
            final(self)@ == old(self)@.after_partial_backtrace(raw_id, thread, frames_invalidated, partial@),
    {
        let previous = match thread_address_lists_get(&self.previous_backtrace_on_thread, thread) {
            Some(previous) => previous,
            None => Vec::new(),
        };
        let addresses = expand_partial_backtrace(&previous, frames_invalidated, partial);
        let latest = addresses.clone();
        proof {
            assert(latest@ =~= addresses@);
        }
        self.add_backtrace(raw_id, addresses);
        thread_address_lists_insert(&mut self.previous_backtrace_on_thread, thread, latest);
    }

    fn record_mmap_operation(&mut self, operation: MmapOperation)
        requires
            old(self).wf(),
        ensures
            final(self).wf(),
            final(self).recording() == old(self).recording(),
            final(self)@ == (LoaderState {
                mmap_operations: old(self)@.mmap_operations.push(operation),
                ..old(self)@
            }),
    {
        self.mmap_operations.push(operation);
        proof {
            assert(self@ =~= (LoaderState {
                mmap_operations: old(self)@.mmap_operations.push(operation),
                ..old(self)@
            }));
        }
    }

    fn record_mallopt(&mut self, mallopt: Mallopt)
        requires
            old(self).wf(),
        ensures
            final(self).wf(),
            final(self).recording() == old(self).recording(),
            final(self)@ == (LoaderState { mallopts: old(self)@.mallopts.push(mallopt), ..old(self)@ }),
    {
        self.mallopts.push(mallopt);
        proof {
            assert(self@ =~= (LoaderState { mallopts: old(self)@.mallopts.push(mallopt), ..old(self)@ }));
        }
    }

    fn set_wall_clock_offset(&mut self, offset: u64)
        requires
            old(self).wf(),
        ensures
            final(self).wf(),
            final(self).recording() == old(self).recording(),
            final(self)@ == (LoaderState { timestamp_to_wall_clock: offset, ..old(self)@ }),
    {
        self.timestamp_to_wall_clock = offset;
        proof {
            assert(self@ =~= (LoaderState { timestamp_to_wall_clock: offset, ..old(self)@ }));
        }
    }

    fn set_marker(&mut self, value: u32)
        requires
            old(self).wf(),
        ensures
            final(self).wf(),
            final(self).recording() == old(self).recording(),
            final(self)@ == (LoaderState { marker: value, ..old(self)@ }),
    {
        self.marker = value;
        proof {
            assert(self@ =~= (LoaderState { marker: value, ..old(self)@ }));
        }
    }

    fn set_group_statistics(&mut self, index: usize, stats: GroupStatistics)
        requires
            old(self).wf(),
            index < old(self)@.group_stats.len(),
        ensures
            final(self).wf(),
            final(self).recording() == old(self).recording(),
            final(self)@ == (LoaderState {
                group_stats: old(self)@.group_stats.update(index as int, stats),
                ..old(self)@
            }),
    {
        self.group_stats.set(index, stats);
        proof {
            assert(self@ =~= (LoaderState {
                group_stats: old(self)@.group_stats.update(index as int, stats),
                ..old(self)@
            }));
        }
    }

    /// Whether a new allocation fits the counters.
    fn can_alloc_now(&self, pointer: u64, size: u64, backtrace: BacktraceId, extra_usable_space: u32) -> (r: bool)
        requires
            self.wf(),
            backtrace.0 < self@.group_stats.len(),
        ensures
            r == self@.can_alloc(pointer, size, backtrace.0, extra_usable_space),
    {
        if key_positions_contains(&self.allocation_map, (0u64, pointer)) {
            return true;
        }
        self.counters_take_allocation(size, backtrace, extra_usable_space)
    }

    /// Whether the counters can take one more allocation of `size` bytes
    /// and `extra_usable_space` bytes of slack from `backtrace`.
    fn counters_take_allocation(&self, size: u64, backtrace: BacktraceId, extra_usable_space: u32) -> (r: bool)
        requires
            self.wf(),
            backtrace.0 < self@.group_stats.len(),
        ensures
            r == {
                &&& size + extra_usable_space <= u64::MAX
                &&& room_to_allocate(self@.group_stats[backtrace.0 as int], size + extra_usable_space)
                &&& self@.total_allocated + size <= u64::MAX
                &&& self@.total_allocated_count + 1 <= u64::MAX
            },
    {
        let usable_size = match size.checked_add(extra_usable_space as u64) {
            Some(usable_size) => usable_size,
            None => return false,
        };
        let stats = &self.group_stats[backtrace.0 as usize];
        stats.alloc_count < u64::MAX && stats.alloc_size.checked_add(usable_size).is_some()
            && self.total_allocated.checked_add(size).is_some() && self.total_allocated_count < u64::MAX
    }

    /// Whether the counters can take the release of what `key` leads to.
    fn can_release_now(&self, key: (u64, u64)) -> (r: bool)
        requires
            self.wf(),
        ensures
            r == self@.can_release(key),
    {
        match key_positions_get(&self.allocation_map, key) {
            None => true,
            Some(id) => {
                let count = self.allocations.len();
                proof {
                    assert(self@.live[key] == id);
                    assert(id < count);
                }
                let allocation = &self.allocations[id as usize];
                let stats = &self.group_stats[allocation.backtrace.0 as usize];
                proof {
                    assert(*allocation == self@.allocations[self@.live[key] as int]);
                    assert(*stats == self@.group_stats[allocation.backtrace.0 as int]);
                }
                let freed_fits = self.total_freed.checked_add(allocation.size).is_some();
                let count_fits = self.total_freed_count < u64::MAX;
                let group_fits = stats.free_count < u64::MAX && stats.free_size.checked_add(
                    allocation.usable_size(),
                ).is_some();
                freed_fits && count_fits && group_fits
            },
        }
    }

    /// Whether there is room for a new backtrace of `addresses`.
    fn can_add_backtrace_now(&self, addresses: &Vec<u64>) -> (r: bool)
        requires
            self.wf(),
        ensures
            r == self@.can_add_backtrace(addresses@),
    {
        if address_list_positions_get(&self.backtrace_to_id, addresses.as_slice()).is_some() {
            return true;
        }
        self.backtraces.len() < 0xFFFF_FFFF && addresses.len() <= 0xFFFF_FFFF
            && self.backtraces_storage.len() as u64 + addresses.len() as u64 <= 0xFFFF_FFFF
    }

    /// The full backtrace that a thread's partial backtrace stands for.
    fn expand_for(&self, thread: u32, frames_invalidated: FramesInvalidated, partial: &Vec<u64>) -> (addresses: Vec<u64>)
        ensures
            addresses@ == self@.expanded_for(thread, frames_invalidated, partial@),
    {
        let previous = match thread_address_lists_get(&self.previous_backtrace_on_thread, thread) {
            Some(previous) => previous,
            None => Vec::new(),
        };
        expand_partial_backtrace(&previous, frames_invalidated, partial)
    }

    /// Whether the loader takes `event` in; where it does not, the event
    /// refers to a backtrace that was not announced, opens another
    /// recording, or overflows a counter, the wall clock or the backtrace
    /// storage.
    pub fn can_process(&self, event: &Event) -> (r: bool)
        requires
            self.wf(),
        ensures
            r == self@.accepts(self.recording(), *event),
    {
        match event {
            Event::Header(header) => header.id == self.header.id && header.initial_timestamp
                == self.header.initial_timestamp,
            Event::Alloc { allocation, .. } => match self.lookup_backtrace(allocation.backtrace) {
                None => false,
                Some(backtrace) => self.can_alloc_now(
                    allocation.pointer,
                    allocation.size,
                    backtrace,
                    allocation.extra_usable_space,
                ),
            },
            Event::Realloc { old_pointer, allocation, .. } => match self.lookup_backtrace(
                allocation.backtrace,
            ) {
                None => false,
                Some(backtrace) => {
                    let old_key = (0u64, *old_pointer);
                    if !self.can_release_now(old_key) {
                        false
                    } else if !key_positions_contains(&self.allocation_map, old_key) {
                        true
                    } else if allocation.pointer != *old_pointer && key_positions_contains(
                        &self.allocation_map,
                        (0u64, allocation.pointer),
                    ) {
                        true
                    } else {
                        self.counters_take_allocation(
                            allocation.size,
                            backtrace,
                            allocation.extra_usable_space,
                        )
                    }
                },
            },
            Event::Free { pointer, .. } => self.can_release_now((0u64, *pointer)),
            Event::Backtrace { addresses, .. } => self.can_add_backtrace_now(addresses),
            Event::PartialBacktrace { thread, frames_invalidated, addresses, .. } => {
                let full = self.expand_for(*thread, *frames_invalidated, addresses);
                self.can_add_backtrace_now(&full)
            },
            Event::PartialBacktrace32 { thread, frames_invalidated, addresses, .. } => {
                let wide = widen(addresses);
                let full = self.expand_for(*thread, *frames_invalidated, &wide);
                self.can_add_backtrace_now(&full)
            },
            Event::MemoryMap { backtrace, .. } => self.lookup_backtrace(*backtrace).is_some(),
            Event::MemoryUnmap { backtrace, .. } => self.lookup_backtrace(*backtrace).is_some(),
            Event::Mallopt { backtrace, .. } => self.lookup_backtrace(*backtrace).is_some(),
            Event::WallClock { sec, nsec, .. } => match sec.checked_mul(1_000_000) {
                None => false,
                Some(usecs) => usecs.checked_add(*nsec / 1_000).is_some(),
            },
            Event::GroupStatistics { backtrace, free_count, free_size, .. } => match self.lookup_backtrace(
                *backtrace,
            ) {
                None => false,
                Some(backtrace) => {
                    let stats = &self.group_stats[backtrace.0 as usize];
                    stats.alloc_count.checked_add(*free_count).is_some() && stats.alloc_size.checked_add(
                        *free_size,
                    ).is_some() && stats.free_count.checked_add(*free_count).is_some()
                        && stats.free_size.checked_add(*free_size).is_some()
                },
            },
            Event::String { string, .. } => table_contains(&self.strings, string.as_str()) || table_len(&self.strings)
                < u32::MAX as usize,
            Event::DecodedFrame { library, raw_function, function, source, .. } => {
                self.known_ref_now(*library) && self.known_ref_now(*raw_function) && self.known_ref_now(*function)
                    && self.known_ref_now(*source)
            },
            Event::DecodedBacktrace { frames } => {
                let count = self.backtraces.len();
                let stored = self.backtraces_storage.len();
                count < u32::MAX as usize && frames.len() <= u32::MAX as usize - stored && all_below(
                    frames,
                    self.frames.len(),
                )
            },
            _ => true,
        }
    }

    fn known_ref_now(&self, raw: u32) -> (r: bool)
        requires
            self.wf(),
        ensures
            r == self@.known_ref(raw),
    {
        raw == 0xFFFF_FFFF || number_positions_get(&self.string_id_map, raw as u64).is_some()
    }

    /// Whether the loaded data can be finished: every chain of
    /// reallocations is short enough for its length to fit 32 bits, and
    /// every frame's count can take the allocations made through it.
    pub fn can_finalize(&self) -> (r: bool)
        requires
            self.wf(),
        ensures
            r == (chains_fit(self@.allocations) && frame_counts_fit(
                self@.frames,
                self@.backtraces,
                self@.backtraces_storage,
                self@.group_stats,
            )),
    {
        proof {
            let allocations = self@.allocations;
            assert forall|i: int|
                #![trigger allocations[i]]
                0 <= i < allocations.len() implies (allocations[i].reallocated_from matches Some(p) ==> {
                    &&& p.0 < i
                    &&& allocations[p.0 as int].reallocation == Some(AllocationId(i as u64))
                }) by {
                assert(self@.allocations[i] == allocations[i]);
            }
        }
        chains_fit_now(&self.allocations) && frame_counts_fit_now(
            &self.frames,
            &self.backtraces,
            &self.backtraces_storage,
            &self.group_stats,
        )
    }

    /// Finishes loading: links the chains of reallocations, counts the
    /// allocations made through each frame, and orders the allocations and
    /// the operations.
    pub fn finalize(self) -> (data: Data)
        requires
            self.wf(),
            chains_fit(self@.allocations),
            frame_counts_fit(self@.frames, self@.backtraces, self@.backtraces_storage, self@.group_stats),
        ensures
            data.id == self.recording().id,
            data.initial_timestamp == self@.shifted(self.recording().initial_timestamp),
            data.last_timestamp == later(
                self@.last_timestamp,
                latest_of_groups(self@.group_stats, data.initial_timestamp),
            ),
            data.executable@ == self.recording().executable@,
            data.architecture@ == self.recording().arch@,
            data.pointer_size == self.recording().pointer_size,
            data.allocations@ == linked(self@.allocations),
            chains_up_to(data.chains(), self@.allocations, self@.allocations.len() as int),
            data.sorted_by_timestamp@ == ordered_by(self@.allocations, time_key()),
            data.sorted_by_address@ == ordered_by(self@.allocations, address_key()),
            data.sorted_by_size@ == ordered_by(self@.allocations, size_key()),
            data.operations@ == operations_in_time(self@.operations),
            data.frames@ == counted_frames(
                self@.frames,
                self@.backtraces,
                self@.backtraces_storage,
                self@.group_stats,
            ),
            data.backtraces@ == self@.backtraces,
            data.backtraces_storage@ == self@.backtraces_storage,
            table_strings(data.strings) == self@.strings,
            data.total_allocated == self@.total_allocated,
            data.total_allocated_count == self@.total_allocated_count,
            data.total_freed == self@.total_freed,
            data.total_freed_count == self@.total_freed_count,
            data.mallopts@ == self@.mallopts,
            data.mmap_operations@ == self@.mmap_operations,
            data.maximum_backtrace_depth == self@.maximum_backtrace_depth,
            data.group_stats@ == self@.group_stats,
    {
        let ghost state = self@;
        let initial_timestamp = self.shift_timestamp(self.header.initial_timestamp);
        let last_timestamp = self.last_timestamp;
        let mut allocations = self.allocations;
        proof {
            assert forall|i: int|
                #![trigger allocations@[i]]
                0 <= i < allocations@.len() implies (allocations@[i].reallocated_from matches Some(p) ==> {
                    &&& p.0 < i
                    &&& allocations@[p.0 as int].reallocation == Some(AllocationId(i as u64))
                }) by {
                assert(state.allocations[i] == allocations@[i]);
            }
            assert(links_valid(allocations@));
        }
        let chains = link_chains(&mut allocations);
        let mut frames = self.frames;
        let backtraces = self.backtraces;
        let backtraces_storage = self.backtraces_storage;
        let group_stats = self.group_stats;
        count_frames(&mut frames, &backtraces, &backtraces_storage, &group_stats);
        let sorted_by_timestamp = ordered_ids(&allocations, 0);
        let sorted_by_address = ordered_ids(&allocations, 1);
        let sorted_by_size = ordered_ids(&allocations, 2);
        proof {
            let linked_allocations = linked(state.allocations);
            assert(keyed_by(linked_allocations, time_key()) =~= keyed_by(state.allocations, time_key()));
            assert(keyed_by(linked_allocations, address_key()) =~= keyed_by(state.allocations, address_key()));
            assert(keyed_by(linked_allocations, size_key()) =~= keyed_by(state.allocations, size_key()));
        }
        let operations = order_operations(&self.operations);
        let latest = latest_allocation(&group_stats, initial_timestamp);
        let last_timestamp = later_of(last_timestamp, latest);
        let header = self.header;
        Data::new(
            header.id,
            initial_timestamp,
            last_timestamp,
            header.executable,
            header.arch,
            header.pointer_size as u64,
            operations,
            allocations,
            sorted_by_timestamp,
            sorted_by_address,
            sorted_by_size,
            frames,
            backtraces,
            backtraces_storage,
            (self.total_allocated, self.total_allocated_count, self.total_freed, self.total_freed_count),
            self.mallopts,
            self.mmap_operations,
            self.maximum_backtrace_depth,
            group_stats,
            chains,
            self.strings,
        )
    }

    /// Takes in one event of the recording.
    ///
    /// The strings, decoded frames and decoded backtraces of a symbolized
    /// recording are taken into the string table, the frames and the
    /// backtraces. File events feed symbol lookup, which the loader does not
    /// do; environment entries and memory dumps are not used.
    pub fn process(&mut self, event: Event)
        requires
            old(self).wf(),
            old(self)@.accepts(old(self).recording(), event),
        ensures
            final(self).wf(),
            final(self)@ == old(self)@.next(event),
            final(self).recording() == old(self).recording(),
    {
        match event {
            Event::Alloc { timestamp, allocation } => {
                let timestamp = self.shift_timestamp(timestamp);
                let backtrace = self.lookup_backtrace(allocation.backtrace).unwrap();
                self.handle_alloc(
                    timestamp,
                    allocation.pointer,
                    allocation.size,
                    backtrace,
                    allocation.thread,
                    allocation.flags,
                    allocation.extra_usable_space,
                );
            },
            Event::Realloc { timestamp, old_pointer, allocation } => {
                let timestamp = self.shift_timestamp(timestamp);
                let backtrace = self.lookup_backtrace(allocation.backtrace).unwrap();
                self.handle_realloc(
                    timestamp,
                    old_pointer,
                    allocation.pointer,
                    allocation.size,
                    backtrace,
                    allocation.thread,
                    allocation.flags,
                    allocation.extra_usable_space,
                );
            },
            Event::Free { timestamp, pointer, backtrace, thread } => {
                let timestamp = self.shift_timestamp(timestamp);
                let backtrace = self.lookup_backtrace(backtrace);
                self.handle_free(timestamp, pointer, backtrace, thread);
            },
            Event::Backtrace { id, addresses } => {
                self.add_backtrace(id, addresses);
            },
            Event::PartialBacktrace { id, thread, frames_invalidated, addresses } => {
                self.add_partial_backtrace(id, thread, frames_invalidated, &addresses);
            },
            Event::PartialBacktrace32 { id, thread, frames_invalidated, addresses } => {
                let wide = widen(&addresses);
                self.add_partial_backtrace(id, thread, frames_invalidated, &wide);
            },
            Event::MemoryMap {
                timestamp,
                pointer,
                length,
                backtrace,
                requested_address,
                mmap_protection,
                mmap_flags,
                file_descriptor,
                thread,
                offset,
            } => {
                let timestamp = self.shift_timestamp(timestamp);
                let backtrace = self.lookup_backtrace(backtrace).unwrap();
                let mmap = MemoryMap {
                    timestamp,
                    pointer,
                    length,
                    backtrace,
                    requested_address,
                    mmap_protection: ProtectionFlags(mmap_protection),
                    mmap_flags: MapFlags(mmap_flags),
                    file_descriptor,
                    thread,
                    offset,
                };
                self.record_mmap_operation(MmapOperation::Mmap(mmap));
            },
            Event::MemoryUnmap { timestamp, pointer, length, backtrace, thread } => {
                let timestamp = self.shift_timestamp(timestamp);
                let backtrace = self.lookup_backtrace(backtrace).unwrap();
                let munmap = MemoryUnmap { timestamp, pointer, length, backtrace, thread };
                self.record_mmap_operation(MmapOperation::Munmap(munmap));
            },
            Event::Mallopt { timestamp, backtrace, thread, param, value, result } => {
                let timestamp = self.shift_timestamp(timestamp);
                let backtrace = self.lookup_backtrace(backtrace).unwrap();
                let kind = MalloptKind::from_raw(param);
                self.record_mallopt(Mallopt { timestamp, backtrace, thread, kind, value, result });
            },
            Event::WallClock { timestamp, sec, nsec } => {
                let offset = Timestamp::from_timespec(sec, nsec).as_usecs().wrapping_sub(
                    timestamp.as_usecs(),
                );
                self.set_wall_clock_offset(offset);
            },
            Event::Marker { value } => {
                self.set_marker(value);
            },
            Event::GroupStatistics {
                backtrace,
                first_allocation,
                last_allocation,
                free_count,
                free_size,
                min_size,
                max_size,
            } => {
                let first_allocation = self.shift_timestamp(first_allocation);
                let last_allocation = self.shift_timestamp(last_allocation);
                let backtrace = self.lookup_backtrace(backtrace).unwrap();
                let index = backtrace.0 as usize;
                let new_stats = merged_stats(
                    &self.group_stats[index],
                    first_allocation,
                    last_allocation,
                    free_count,
                    free_size,
                    min_size,
                    max_size,
                );
                self.set_group_statistics(index, new_stats);
            },
            Event::String { id, string } => self.add_string(id, string),
            Event::DecodedFrame { address, library, raw_function, function, source, line, column, is_inline } => {
                self.add_decoded_frame(address, library, raw_function, function, source, line, column, is_inline);
            },
            Event::DecodedBacktrace { frames } => self.add_decoded_backtrace(frames),
            _ => {},
        }
    }

    fn add_string(&mut self, id: u32, string: String)
        requires
            old(self).wf(),
            old(self)@.strings.contains(string@) || old(self)@.strings.len() < u32::MAX,
        ensures
            final(self).recording() == old(self).recording(),
            final(self).wf(),
            final(self)@ == old(self)@.after_string(id, string@),
    {
        let ghost o = self@;
        let place = table_get_or_intern(&mut self.strings, string.as_str());
        proof {
            assert(place < u32::MAX);
        }
        number_positions_insert(&mut self.string_id_map, id as u64, place as u64 + 1);
        proof {
            let s = self@;
            if o.strings.contains(string@) {
                let p = o.place_of(string@);
                assert(0 <= p < o.strings.len() && o.strings[p] == string@);
                if p != place {
                    if p < place {
                        assert(o.strings[p] != o.strings[place as int]);
                    } else {
                        assert(o.strings[place as int] != o.strings[p]);
                    }
                }
                assert(s =~= o.after_string(id, string@));
            } else {
                assert(s =~= o.after_string(id, string@));
                assert forall|i: int, j: int| #![trigger s.strings[i], s.strings[j]] 0 <= i < j < s.strings.len()
                    implies s.strings[i] != s.strings[j] by {
                    if j == o.strings.len() {
                        assert(s.strings[i] == o.strings[i]);
                        assert(o.strings.contains(o.strings[i]));
                    }
                }
            }
            assert forall|raw: u64| #![trigger s.string_ids[raw]] s.string_ids.contains_key(raw)
                implies 1 <= s.string_ids[raw] <= s.strings.len() by {
                if raw != id as u64 {
                    assert(s.string_ids[raw] == o.string_ids[raw]);
                }
            }
        }
    }

    /// The string that an identifier of a decoded frame names.
    fn string_ref_of(&self, raw: u32) -> (r: Option<StringId>)
        requires
            self.wf(),
            self@.known_ref(raw),
        ensures
            r == self@.string_ref(raw),
    {
        if raw == 0xFFFF_FFFF {
            None
        } else {
            let place = number_positions_get(&self.string_id_map, raw as u64).unwrap();
            proof {
                assert(place <= self@.strings.len());
                assert(self@.string_ids.contains_key(raw as u64));
            }
            Some(StringId(place as u32))
        }
    }

    fn add_decoded_frame(
        &mut self,
        address: u64,
        library: u32,
        raw_function: u32,
        function: u32,
        source: u32,
        line: u32,
        column: u32,
        is_inline: bool,
    )
        requires
            old(self).wf(),
            old(self)@.known_ref(library),
            old(self)@.known_ref(raw_function),
            old(self)@.known_ref(function),
            old(self)@.known_ref(source),
        ensures
            final(self).recording() == old(self).recording(),
            final(self).wf(),
            final(self)@ == (LoaderState {
                frames: old(self)@.frames.push(
                    old(self)@.decoded_frame(address, library, raw_function, function, source, line, column, is_inline),
                ),
                ..old(self)@
            }),
    {
        let ghost o = self@;
        let mut frame = Frame::new_unknown(CodePointer(address));
        let library_ref = self.string_ref_of(library);
        let raw_function_ref = self.string_ref_of(raw_function);
        let function_ref = self.string_ref_of(function);
        let source_ref = self.string_ref_of(source);
        frame.library = library_ref;
        frame.raw_function = raw_function_ref;
        frame.function = function_ref;
        frame.source = source_ref;
        if line != 0xFFFF_FFFF {
            frame.set_line(line);
        }
        if column != 0xFFFF_FFFF {
            frame.set_column(column);
        }
        frame.set_is_inline(is_inline);
        self.frames.push(frame);
        proof {
            let s = self@;
            assert(frame == o.decoded_frame(address, library, raw_function, function, source, line, column, is_inline)) by {
                assert(frame.line == (if line == 0xFFFF_FFFF { None } else { nonzero(line) }));
            }
            assert(s =~= (LoaderState {
                frames: o.frames.push(
                    o.decoded_frame(address, library, raw_function, function, source, line, column, is_inline),
                ),
                ..o
            }));
        }
    }

    fn add_decoded_backtrace(&mut self, frames: Vec<u32>)
        requires
            old(self).wf(),
            old(self)@.backtraces.len() < u32::MAX,
            old(self)@.backtraces_storage.len() + frames@.len() <= u32::MAX,
            forall|i: int| 0 <= i < frames@.len() ==> (#[trigger] frames@[i]) < old(self)@.frames.len(),
        ensures
            final(self).recording() == old(self).recording(),
            final(self).wf(),
            final(self)@ == old(self)@.after_decoded_backtrace(frames@),
    {
        let ghost o = self@;
        let id = self.backtraces.len() as u64;
        number_positions_insert(&mut self.backtrace_remappings, id, id);
        let offset = self.backtraces_storage.len();
        let mut extension: Vec<usize> = Vec::new();
        let mut i: usize = 0;
        while i < frames.len()
            invariant
                0 <= i <= frames@.len(),
                extension@ == frames@.take(i as int).map_values(|f: u32| f as usize),
            decreases frames@.len() - i,
        {
            extension.push(frames[i] as usize);
            proof {
                assert(extension@ =~= frames@.take(i + 1).map_values(|f: u32| f as usize));
            }
            i = i + 1;
        }
        proof {
            assert(frames@.take(frames@.len() as int) =~= frames@);
        }
        self.backtraces_storage.append(&mut extension);
        let length = frames.len();
        self.backtraces.push((offset as u32, length as u32));
        if (length as u32) > self.maximum_backtrace_depth {
            self.maximum_backtrace_depth = length as u32;
        }
        self.group_stats.push(GroupStatistics::default());
        proof {
            let s = self@;
            assert(s =~= o.after_decoded_backtrace(frames@));
            assert forall|raw: u64| #![trigger s.backtrace_ids[raw]] s.backtrace_ids.contains_key(raw) implies s.backtrace_ids[raw] < s.backtraces.len() by {
                if raw != id {
                    assert(s.backtrace_ids[raw] == o.backtrace_ids[raw]);
                }
            }
            assert forall|l: Seq<u64>| #![trigger s.backtrace_lookup[l]] s.backtrace_lookup.contains_key(l) implies s.backtrace_lookup[l] < s.backtraces.len() by {
                assert(s.backtrace_lookup[l] == o.backtrace_lookup[l]);
            }
            assert forall|i: int| #![trigger s.backtraces[i]] 0 <= i < s.backtraces.len() implies s.backtraces[i].0 + s.backtraces[i].1 <= s.backtraces_storage.len() by {
                if i < o.backtraces.len() {
                    assert(s.backtraces[i] == o.backtraces[i]);
                }
            }
            assert forall|i: int| #![trigger s.allocations[i]] 0 <= i < s.allocations.len() implies s.allocations[i].backtrace.0 < s.group_stats.len() by {
                assert(s.allocations[i] == o.allocations[i]);
            }
            assert forall|i: int| #![trigger s.backtraces_storage[i]] 0 <= i < s.backtraces_storage.len() implies s.backtraces_storage[i] < s.frames.len() by {
                if i >= o.backtraces_storage.len() {
                    assert(s.backtraces_storage[i] == frames@[i - o.backtraces_storage.len()] as usize);
                }
            }
        }
    }

    fn add_backtrace(&mut self, raw_id: u64, addresses: Vec<u64>)
        requires
            old(self).wf(),
            old(self)@.can_add_backtrace(addresses@),
        ensures
            final(self).recording() == old(self).recording(),
            final(self).wf(),
            final(self)@ == old(self)@.after_backtrace(raw_id, addresses@),
    {
        let ghost o = self@;
        match address_list_positions_get(&self.backtrace_to_id, addresses.as_slice()) {
            Some(target_id) => {
                number_positions_insert(&mut self.backtrace_remappings, raw_id, target_id);
                proof {
                    let s = self@;
                    assert(s.backtrace_ids =~= o.backtrace_ids.insert(raw_id, target_id));
                    assert forall|raw: u64| #![trigger s.backtrace_ids[raw]] s.backtrace_ids.contains_key(raw) implies s.backtrace_ids[raw] < s.backtraces.len() by {
                        if raw != raw_id {
                            assert(s.backtrace_ids[raw] == o.backtrace_ids[raw]);
                        }
                    }
                    assert(s =~= o.after_backtrace(raw_id, addresses@));
                }
                return ;
            },
            None => {},
        }
        let offset = self.backtraces_storage.len();
        resolve_frames(
            &mut self.frames,
            &mut self.frames_by_address,
            &mut self.backtraces_storage,
            &addresses,
        );
        let id = self.backtraces.len() as u64;
        number_positions_insert(&mut self.backtrace_remappings, raw_id, id);
        let length = self.backtraces_storage.len() - offset;
        let ghost key = addresses@;
        address_list_positions_insert(&mut self.backtrace_to_id, addresses, id);
        self.backtraces.push((offset as u32, length as u32));
        if (length as u32) > self.maximum_backtrace_depth {
            self.maximum_backtrace_depth = length as u32;
        }
        self.group_stats.push(GroupStatistics::default());
        proof {
            let s = self@;
            assert forall|raw: u64| #![trigger s.backtrace_ids[raw]] s.backtrace_ids.contains_key(raw) implies s.backtrace_ids[raw] < s.backtraces.len() by {
                if raw != raw_id {
                    assert(s.backtrace_ids[raw] == o.backtrace_ids[raw]);
                }
            }
            assert forall|l: Seq<u64>| #![trigger s.backtrace_lookup[l]] s.backtrace_lookup.contains_key(l) implies s.backtrace_lookup[l] < s.backtraces.len() by {
                if l != key {
                    assert(s.backtrace_lookup[l] == o.backtrace_lookup[l]);
                }
            }
            assert forall|i: int| #![trigger s.backtraces[i]] 0 <= i < s.backtraces.len() implies s.backtraces[i].0 + s.backtraces[i].1 <= s.backtraces_storage.len() by {
                if i < o.backtraces.len() {
                    assert(s.backtraces[i] == o.backtraces[i]);
                }
            }
            assert forall|i: int| #![trigger s.allocations[i]] 0 <= i < s.allocations.len() implies s.allocations[i].backtrace.0 < s.group_stats.len() by {
                assert(s.allocations[i] == o.allocations[i]);
            }
            assert(s =~= o.after_backtrace(raw_id, key));
        }
    }

    fn handle_alloc(
        &mut self,
        timestamp: Timestamp,
        pointer: u64,
        size: u64,
        backtrace: BacktraceId,
        thread: u32,
        flags: u32,
        extra_usable_space: u32,
    )
        requires
            old(self).wf(),
            old(self)@.can_alloc(pointer, size, backtrace.0, extra_usable_space),
        ensures
            final(self).recording() == old(self).recording(),
            final(self).wf(),
            final(self)@ == old(self)@.after_alloc(
                timestamp,
                pointer,
                size,
                backtrace.0,
                thread,
                flags,
                extra_usable_space,
            ),
    {
        self.last_timestamp = later_of(self.last_timestamp, timestamp);
        proof {
            lemma_valid_with_time(old(self)@, self.last_timestamp);
            assert(self@ == (LoaderState { last_timestamp: self.last_timestamp, ..old(self)@ }));
        }
        let allocation_flags = parse_flags(flags);
        let allocation_id = AllocationId::new(self.allocations.len() as u64);
        let allocation = Allocation {
            pointer,
            timestamp,
            thread,
            size,
            backtrace,
            deallocation: None,
            reallocation: None,
            reallocated_from: None,
            first_allocation_in_chain: None,
            position_in_chain: 0,
            flags: allocation_flags,
            extra_usable_space,
            marker: self.marker,
            preceding_free_space: 0,
        };
        let key = (0u64, pointer);
        if key_positions_contains(&self.allocation_map, key) {
            return;
        }
        let index = backtrace.0 as usize;
        let new_stats = allocated_stats(&self.group_stats[index], timestamp, allocation.usable_size());
        self.group_stats.set(index, new_stats);
        self.allocations.push(allocation);
        key_positions_insert(&mut self.allocation_map, key, allocation_id.0);
        self.total_allocated = self.total_allocated + size;
        self.total_allocated_count = self.total_allocated_count + 1;
        self.operations.push((timestamp, OperationId::new_allocation(allocation_id)));
        proof {
            let s = self@;
            let o = old(self)@;
            assert(s.allocations =~= o.allocations.push(allocation));
            assert forall|k: (u64, u64)|
                #![trigger s.live[k]]
                s.live.contains_key(k) implies {
                    &&& s.live[k] < s.allocations.len()
                    &&& s.allocations[s.live[k] as int].deallocation is None
                    &&& s.allocations[s.live[k] as int].reallocation is None
                } by {
                if k != key {
                    assert(o.live[k] == s.live[k]);
                }
            }
            assert forall|k1: (u64, u64), k2: (u64, u64)|
                #![trigger s.live[k1], s.live[k2]]
                s.live.contains_key(k1) && s.live.contains_key(k2) && s.live[k1] == s.live[k2]
                    implies k1 == k2 by {
                if k1 != key && k2 != key {
                    assert(o.live[k1] == s.live[k1]);
                    assert(o.live[k2] == s.live[k2]);
                } else if k1 != key {
                    assert(o.live[k1] == s.live[k1]);
                } else if k2 != key {
                    assert(o.live[k2] == s.live[k2]);
                }
            }
            assert forall|i: int|
                #![trigger s.allocations[i]]
                0 <= i < s.allocations.len() implies {
                    &&& s.allocations[i].backtrace.0 < s.group_stats.len()
                    &&& usable(s.allocations[i]) <= u64::MAX
                    &&& s.allocations[i].reallocated_from matches Some(p) ==> {
                        &&& p.0 < i
                        &&& s.allocations[p.0 as int].reallocation == Some(AllocationId(i as u64))
                    }
                } by {
                if i < o.allocations.len() {
                    assert(o.allocations[i] == s.allocations[i]);
                }
            }
            assert(s =~= o.after_alloc(
                timestamp,
                pointer,
                size,
                backtrace.0,
                thread,
                flags,
                extra_usable_space,
            ));
        }
    }
}

} // verus!
