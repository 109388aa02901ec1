//! The replay format: the operations on the selected allocations, as a
//! stream of 64-bit words that a replayer can follow. Each allocation gets
//! a slot, reused once it is freed; each operation is preceded by the walk
//! through the frames of its backtrace from the previous backtrace's, with
//! the frames numbered by how often they are used.

use vstd::prelude::*;
use std::collections::HashMap;
use crate::ids::{operation_kind_of, operation_target_of, BacktraceId};
use crate::data::Allocation;
use crate::loaded::{Data, backtrace_frames};
use crate::sorting::{
    stably_sorted, sort_by_key, values_ascending, strictly_ascending, lemma_stably_sorted,
    lemma_stably_sorted_members, lemma_stably_sorted_stable,
};

verus! {

/// The index of the allocation that an operation is about.
pub open spec fn target_index(data: &Data, k: int) -> int {
    operation_target_of(data.operations@[k].0) as int
}

/// The allocation that an operation is about.
pub open spec fn target(data: &Data, k: int) -> Allocation {
    data.allocations@[target_index(data, k)]
}

/// The index of the allocation that a reallocation replaced.
pub open spec fn replaced_index(data: &Data, k: int) -> int {
    target(data, k).reallocated_from.unwrap().0 as int
}

/// The allocation that a reallocation replaced.
pub open spec fn replaced(data: &Data, k: int) -> Allocation {
    data.allocations@[replaced_index(data, k)]
}

pub open spec fn is_allocation(data: &Data, k: int) -> bool {
    operation_kind_of(data.operations@[k].0) == 0
}

pub open spec fn is_reallocation(data: &Data, k: int) -> bool {
    operation_kind_of(data.operations@[k].0) == 2
}

/// The frames of a backtrace, innermost first.
pub open spec fn frames_of(data: &Data, b: BacktraceId) -> Seq<usize> {
    backtrace_frames(data.backtraces@, data.backtraces_storage@, b.0 as int)
}

/// Whether a backtrace and its frames can be looked up.
pub open spec fn backtrace_usable(data: &Data, b: BacktraceId) -> bool {
    &&& b.0 < data.backtraces@.len()
    &&& data.backtraces@[b.0 as int].0 + data.backtraces@[b.0 as int].1 <= data.backtraces_storage@.len()
    &&& forall|i: int| 0 <= i < frames_of(data, b).len() ==> #[trigger] frames_of(data, b)[i] < data.frames@.len()
}

/// The backtrace from which an allocation was freed, if it is known.
pub open spec fn freed_from(a: Allocation) -> Option<BacktraceId> {
    match a.deallocation {
        Some(d) => d.backtrace,
        None => None,
    }
}

/// Whether operation `k` can be read: its allocation exists, a
/// reallocation replaced one that exists and was freed, and a
/// deallocation's allocation was freed; and each backtrace that the export
/// looks at for it can be looked up.
pub open spec fn operation_readable(data: &Data, selected: Seq<bool>, k: int) -> bool {
    let a = target(data, k);
    &&& 0 <= target_index(data, k) < data.allocations@.len()
    &&& is_reallocation(data, k) ==> {
        &&& a.reallocated_from is Some
        &&& 0 <= replaced_index(data, k) < data.allocations@.len()
        &&& replaced(data, k).deallocation is Some
        &&& (selected[target_index(data, k)] || selected[replaced_index(data, k)]) ==> backtrace_usable(data, a.backtrace)
    }
    &&& is_allocation(data, k) && selected[target_index(data, k)] ==> backtrace_usable(data, a.backtrace)
    &&& !is_allocation(data, k) && !is_reallocation(data, k) ==> {
        &&& a.deallocation is Some
        &&& selected[target_index(data, k)] && freed_from(a) is Some ==> backtrace_usable(data, freed_from(a).unwrap())
    }
}

/// Whether the data's operations can be exported with this selection of
/// allocations.
pub open spec fn replayable(data: &Data, selected: Seq<bool>) -> bool {
    &&& selected.len() == data.allocations@.len()
    &&& forall|k: int| 0 <= k < data.operations@.len() ==> #[trigger] operation_readable(data, selected, k)
}

/// What the first pass over the operations gathers: the free slots, in the
/// order they were freed; how many slots there are; the slot of each live
/// pointer; the slot of each operation handled, in order; how often each
/// frame is used; and whether a freed pointer had no slot or a use count
/// outgrew 64 bits.
pub struct SlotState {
    pub free_slots: Seq<usize>,
    pub slot_count: nat,
    pub slot_by_pointer: Map<u64, usize>,
    pub slot_by_index: Seq<usize>,
    pub uses: Seq<nat>,
    pub failed: bool,
}

/// The state before any operation.
pub open spec fn initial_slots(frame_count: nat) -> SlotState {
    SlotState {
        free_slots: Seq::empty(),
        slot_count: 0,
        slot_by_pointer: Map::empty(),
        slot_by_index: Seq::empty(),
        uses: Seq::new(frame_count, |f: int| 0nat),
        failed: false,
    }
}

/// An allocation at `pointer` takes the last freed slot, or a new one.
pub open spec fn with_alloc(s: SlotState, pointer: u64) -> SlotState {
    if s.free_slots.len() == 0 {
        SlotState {
            slot_count: s.slot_count + 1,
            slot_by_pointer: s.slot_by_pointer.insert(pointer, s.slot_count as usize),
            slot_by_index: s.slot_by_index.push(s.slot_count as usize),
            ..s
        }
    } else {
        SlotState {
            free_slots: s.free_slots.drop_last(),
            slot_by_pointer: s.slot_by_pointer.insert(pointer, s.free_slots.last()),
            slot_by_index: s.slot_by_index.push(s.free_slots.last()),
            ..s
        }
    }
}

/// A deallocation at `pointer` frees its slot.
pub open spec fn with_dealloc(s: SlotState, pointer: u64) -> SlotState {
    if !s.slot_by_pointer.contains_key(pointer) {
        SlotState { failed: true, ..s }
    } else {
        let slot = s.slot_by_pointer[pointer];
        SlotState {
            free_slots: s.free_slots.push(slot),
            slot_by_pointer: s.slot_by_pointer.remove(pointer),
            slot_by_index: s.slot_by_index.push(slot),
            ..s
        }
    }
}

/// A reallocation from `old_pointer` to `new_pointer` keeps the slot.
pub open spec fn with_realloc(s: SlotState, new_pointer: u64, old_pointer: u64) -> SlotState {
    if !s.slot_by_pointer.contains_key(old_pointer) {
        SlotState { failed: true, ..s }
    } else {
        let slot = s.slot_by_pointer[old_pointer];
        SlotState {
            slot_by_pointer: s.slot_by_pointer.remove(old_pointer).insert(new_pointer, slot),
            slot_by_index: s.slot_by_index.push(slot),
            ..s
        }
    }
}

/// The use counts once each of `frames` was used once more.
pub open spec fn counted(uses: Seq<nat>, frames: Seq<usize>) -> Seq<nat>
    decreases frames.len(),
{
    if frames.len() == 0 {
        uses
    } else {
        let before = counted(uses, frames.drop_last());
        let f = frames.last() as int;
        before.update(f, before[f] + 1)
    }
}

/// Whether each use count fits in 64 bits.
pub open spec fn uses_fit(uses: Seq<nat>) -> bool {
    forall|f: int| 0 <= f < uses.len() ==> #[trigger] uses[f] <= u64::MAX
}

/// The frames of a backtrace are used once more.
pub open spec fn with_backtrace(s: SlotState, data: &Data, b: BacktraceId) -> SlotState {
    let uses = counted(s.uses, frames_of(data, b));
    SlotState { uses, failed: !uses_fit(uses), ..s }
}

/// The state once operation `k` was handled.
pub open spec fn after_operation(data: &Data, selected: Seq<bool>, s: SlotState, k: int) -> SlotState {
    let a = target(data, k);
    if is_allocation(data, k) {
        if selected[target_index(data, k)] {
            let counted = with_backtrace(s, data, a.backtrace);
            if counted.failed { counted } else { with_alloc(counted, a.pointer) }
        } else {
            s
        }
    } else if is_reallocation(data, k) {
        let new_ok = selected[target_index(data, k)];
        let old_ok = selected[replaced_index(data, k)];
        let counted = if new_ok || old_ok { with_backtrace(s, data, a.backtrace) } else { s };
        if counted.failed {
            counted
        } else if new_ok && old_ok {
            with_realloc(counted, a.pointer, replaced(data, k).pointer)
        } else if new_ok {
            with_alloc(counted, a.pointer)
        } else if old_ok {
            with_dealloc(counted, replaced(data, k).pointer)
        } else {
            counted
        }
    } else {
        if selected[target_index(data, k)] {
            let counted = match freed_from(a) {
                Some(b) => with_backtrace(s, data, b),
                None => s,
            };
            if counted.failed { counted } else { with_dealloc(counted, a.pointer) }
        } else {
            s
        }
    }
}

/// The state once the first `k` operations were handled; it stays as it
/// is once something failed.
pub open spec fn slots_after(data: &Data, selected: Seq<bool>, k: nat) -> SlotState
    decreases k,
{
    if k == 0 {
        initial_slots(data.frames@.len())
    } else {
        let s = slots_after(data, selected, (k - 1) as nat);
        if s.failed { s } else { after_operation(data, selected, s, k - 1) }
    }
}

/// The state after all the operations.
pub open spec fn preprocessed(data: &Data, selected: Seq<bool>) -> SlotState {
    slots_after(data, selected, data.operations@.len())
}

/// Whether `order` lists the used frames, each once, the most used first
/// and, among those used equally often, the one with the larger identifier
/// first.
pub open spec fn ranked(uses: Seq<nat>, order: Seq<usize>) -> bool {
    &&& forall|i: int| #![trigger order[i]] 0 <= i < order.len() ==> order[i] < uses.len() && uses[order[i] as int] > 0
    &&& forall|f: int| 0 <= f < uses.len() && #[trigger] uses[f] > 0 ==> exists|i: int| 0 <= i < order.len() && order[i] == f
    &&& forall|i: int, j: int|
        #![trigger order[i], order[j]]
        0 <= i < j < order.len() ==> uses[order[i] as int] > uses[order[j] as int] || (uses[order[i] as int]
            == uses[order[j] as int] && order[i] > order[j])
}

/// The number a frame goes by: its place in the order.
pub open spec fn rank_of(order: Seq<usize>, f: usize) -> u64 {
    if order.contains(f) {
        order.index_of(f) as u64
    } else {
        0
    }
}

/// The frames of a backtrace, outermost first.
pub open spec fn path_of(data: &Data, b: BacktraceId) -> Seq<usize> {
    frames_of(data, b).reverse()
}

/// How many leading frames two paths share.
pub open spec fn common_length(a: Seq<usize>, b: Seq<usize>) -> nat
    decreases a.len(),
{
    if a.len() == 0 || b.len() == 0 || a[0] != b[0] {
        0
    } else {
        1 + common_length(a.drop_first(), b.drop_first())
    }
}

/// The words that step out of `n` frames.
pub open spec fn steps_up(n: nat) -> Seq<u64>
    decreases n,
{
    if n == 0 {
        Seq::empty()
    } else {
        steps_up((n - 1) as nat) + seq![5u64, 0u64, 0u64, 0u64]
    }
}

/// The words that step into each of `frames`.
pub open spec fn steps_down(frames: Seq<usize>, order: Seq<usize>) -> Seq<u64>
    decreases frames.len(),
{
    if frames.len() == 0 {
        Seq::empty()
    } else {
        steps_down(frames.drop_last(), order) + seq![4u64, rank_of(order, frames.last()), 0u64, 0u64]
    }
}

/// The words that walk from the previous backtrace's frames to those of
/// `b`: out of the frames that are not shared, then into the new ones.
pub open spec fn traversal(data: &Data, last: Option<BacktraceId>, b: BacktraceId, order: Seq<usize>) -> Seq<u64> {
    let path = path_of(data, b);
    let (last_length, common) = match last {
        Some(l) => (path_of(data, l).len(), common_length(path, path_of(data, l))),
        None => (0nat, 0nat),
    };
    steps_up((last_length - common) as nat) + steps_down(path.skip(common as int), order)
}

/// The words of one operation: its kind, its slot, its time and its size.
pub open spec fn record(kind: u64, slot: usize, timestamp: u64, size: u64) -> Seq<u64> {
    seq![kind, slot as u64, timestamp, size]
}

/// The words written for operation `k`, with the slot paired with it, and
/// the backtrace walked to last.
pub open spec fn operation_words(
    data: &Data,
    selected: Seq<bool>,
    order: Seq<usize>,
    k: int,
    slot: usize,
    last: Option<BacktraceId>,
) -> (Seq<u64>, Option<BacktraceId>) {
    let a = target(data, k);
    if is_allocation(data, k) {
        if selected[target_index(data, k)] {
            (traversal(data, last, a.backtrace, order) + record(1, slot, a.timestamp.0, a.size), Some(a.backtrace))
        } else {
            (Seq::empty(), last)
        }
    } else if is_reallocation(data, k) {
        let old = replaced(data, k);
        let new_ok = selected[target_index(data, k)];
        let old_ok = selected[replaced_index(data, k)];
        let (walk, now) = if new_ok || old_ok {
            (traversal(data, last, a.backtrace, order), Some(a.backtrace))
        } else {
            (Seq::empty(), last)
        };
        let words = if new_ok && old_ok {
            record(3, slot, a.timestamp.0, a.size)
        } else if new_ok {
            record(1, slot, a.timestamp.0, a.size)
        } else if old_ok {
            record(2, slot, old.timestamp.0, 0)
        } else {
            Seq::empty()
        };
        (walk + words, now)
    } else {
        if selected[target_index(data, k)] {
            let (walk, now) = match freed_from(a) {
                Some(b) => (traversal(data, last, b, order), Some(b)),
                None => (Seq::empty(), last),
            };
            (walk + record(2, slot, a.timestamp.0, 0), now)
        } else {
            (Seq::empty(), last)
        }
    }
}

/// The words written for the first `k` operations, each paired with the
/// slot at the same place in `slots`.
pub open spec fn words_for(
    data: &Data,
    selected: Seq<bool>,
    order: Seq<usize>,
    slots: Seq<usize>,
    k: nat,
) -> (Seq<u64>, Option<BacktraceId>)
    decreases k,
{
    if k == 0 {
        (Seq::empty(), None)
    } else {
        let (words, last) = words_for(data, selected, order, slots, (k - 1) as nat);
        let (more, now) = operation_words(data, selected, order, k - 1, slots[k - 1], last);
        (words + more, now)
    }
}

/// The whole export: the number of slots, the words of the operations
/// paired with the slots that the first pass gave out, as far as both go,
/// and a closing zero.
pub open spec fn replay_words(data: &Data, selected: Seq<bool>, order: Seq<usize>) -> Seq<u64> {
    let s = preprocessed(data, selected);
    let n = if data.operations@.len() < s.slot_by_index.len() {
        data.operations@.len()
    } else {
        s.slot_by_index.len()
    };
    seq![s.slot_count as u64] + words_for(data, selected, order, s.slot_by_index, n).0 + seq![0u64]
}

/// Once the first pass failed, it stays failed.
proof fn lemma_failure_stays(data: &Data, selected: Seq<bool>, k: nat, n: nat)
    requires
        k <= n,
        slots_after(data, selected, k).failed,
    ensures
        slots_after(data, selected, n).failed,
    decreases n - k,
{
    if k < n {
        lemma_failure_stays(data, selected, k, (n - 1) as nat);
    }
}

/// Counting uses keeps the number of frames and never lowers a count; a
/// longer list of frames counts at least as much as its prefix.
proof fn lemma_counted_grows(uses: Seq<nat>, frames: Seq<usize>, i: int)
    requires
        0 <= i <= frames.len(),
        forall|j: int| 0 <= j < frames.len() ==> #[trigger] frames[j] < uses.len(),
    ensures
        counted(uses, frames).len() == uses.len(),
        forall|f: int| 0 <= f < uses.len() ==> #[trigger] counted(uses, frames)[f] >= counted(uses, frames.take(i))[f],
    decreases frames.len(),
{
    if frames.len() > 0 {
        let d = frames.drop_last();
        assert forall|j: int| 0 <= j < d.len() implies #[trigger] d[j] < uses.len() by {
            assert(d[j] == frames[j]);
        }
        if i == frames.len() {
            assert(frames.take(i) =~= frames);
            lemma_counted_grows(uses, d, 0);
        } else {
            assert(d.take(i) =~= frames.take(i));
            lemma_counted_grows(uses, d, i);
        }
    } else {
        assert(frames.take(i) =~= frames);
    }
}

/// A path's shared length with another is where they first differ.
proof fn lemma_common_length(a: Seq<usize>, b: Seq<usize>, i: int)
    requires
        0 <= i <= a.len(),
        i <= b.len(),
        forall|j: int| 0 <= j < i ==> a[j] == b[j],
        i == a.len() || i == b.len() || a[i] != b[i],
    ensures
        common_length(a, b) == i,
    decreases i,
{
    if i > 0 {
        lemma_common_length(a.drop_first(), b.drop_first(), i - 1);
    }
}

/// The first pass, as it runs.
struct Exporter {
    free_slots: Vec<usize>,
    slot_count: usize,
    slot_by_pointer: HashMap<u64, usize>,
    slot_by_index: Vec<usize>,
    used_frames: Vec<u64>,
}

/// Use counts as numbers.
pub open spec fn as_counts(used: Seq<u64>) -> Seq<nat> {
    used.map_values(|u: u64| u as nat)
}

impl Exporter {
    spec fn state(&self) -> SlotState {
        SlotState {
            free_slots: self.free_slots@,
            slot_count: self.slot_count as nat,
            slot_by_pointer: self.slot_by_pointer@,
            slot_by_index: self.slot_by_index@,
            uses: as_counts(self.used_frames@),
            failed: false,
        }
    }

    /// Uses each frame of backtrace `b` once more; fails where a count
    /// would outgrow 64 bits.
    fn count_backtrace(&mut self, data: &Data, b: BacktraceId) -> (ok: bool)
        requires
            backtrace_usable(data, b),
            old(self).used_frames@.len() == data.frames@.len(),
        ensures
            ok == !with_backtrace(old(self).state(), data, b).failed,
            ok ==> final(self).state() == with_backtrace(old(self).state(), data, b),
            final(self).used_frames@.len() == data.frames@.len(),
            final(self).slot_count == old(self).slot_count,
    {
        let ghost start = as_counts(self.used_frames@);
        let ghost all = frames_of(data, b);
        let frames = data.get_frame_ids(b);
        let n = frames.len();
        let mut i: usize = 0;
        proof {
            assert(frames@ == all);
            assert(all.take(0) =~= Seq::<usize>::empty());
            assert(as_counts(self.used_frames@) =~= counted(start, all.take(0)));
        }
        while i < n
            invariant
                n == all.len(),
                frames@ == all,
                start == as_counts(old(self).used_frames@),
                all == frames_of(data, b),
                self.slot_count == old(self).slot_count,
                self.free_slots@ == old(self).free_slots@,
                self.slot_by_pointer@ == old(self).slot_by_pointer@,
                self.slot_by_index@ == old(self).slot_by_index@,
                0 <= i <= n,
                start.len() == data.frames@.len(),
                self.used_frames@.len() == data.frames@.len(),
                forall|j: int| 0 <= j < all.len() ==> #[trigger] all[j] < data.frames@.len(),
                as_counts(self.used_frames@) == counted(start, all.take(i as int)),
            decreases n - i,
        {
            let f = frames[i];
            proof {
                assert(all.take(i + 1).drop_last() =~= all.take(i as int));
                assert(all.take(i + 1).last() == all[i as int]);
                assert(f == all[i as int]);
            }
            let count = self.used_frames[f];
            if count == u64::MAX {
                proof {
                    lemma_counted_grows(start, all, i + 1);
                    let before = counted(start, all.take(i as int));
                    assert(before[f as int] == u64::MAX);
                    assert(counted(start, all.take(i + 1)) == before.update(f as int, before[f as int] + 1));
                    assert(counted(start, all.take(i + 1))[f as int] == u64::MAX + 1);
                    assert(counted(start, all)[f as int] > u64::MAX);
                    assert(f < counted(start, all).len());
                }
                return false;
            }
            self.used_frames.set(f, count + 1);
            i = i + 1;
            proof {
                assert(as_counts(self.used_frames@) =~= counted(start, all.take(i as int)));
            }
        }
        proof {
            assert(all.take(n as int) =~= all);
            assert forall|f: int| 0 <= f < counted(start, all).len() implies #[trigger] counted(start, all)[f]
                <= u64::MAX by {
                assert(as_counts(self.used_frames@)[f] == self.used_frames@[f] as nat);
            }
            assert(self.state() =~= with_backtrace(old(self).state(), data, b));
        }
        true
    }

    /// An allocation at `pointer` takes a slot.
    fn preprocess_alloc(&mut self, pointer: u64)
        requires
            old(self).slot_count < usize::MAX,
        ensures
            final(self).state() == with_alloc(old(self).state(), pointer),
            final(self).used_frames@ == old(self).used_frames@,
            final(self).slot_count <= old(self).slot_count + 1,
    {
        let slot = if self.free_slots.len() == 0 {
            let slot = self.slot_count;
            self.slot_count = self.slot_count + 1;
            slot
        } else {
            self.free_slots.pop().unwrap()
        };
        self.slot_by_pointer.insert(pointer, slot);
        self.slot_by_index.push(slot);
        proof {
            assert(self.state() =~= with_alloc(old(self).state(), pointer));
        }
    }

    /// A deallocation at `pointer` frees its slot; fails where the pointer
    /// holds none.
    fn preprocess_dealloc(&mut self, pointer: u64) -> (ok: bool)
        ensures
            ok == !with_dealloc(old(self).state(), pointer).failed,
            ok ==> final(self).state() == with_dealloc(old(self).state(), pointer),
            final(self).used_frames@ == old(self).used_frames@,
            final(self).slot_count == old(self).slot_count,
    {
        match self.slot_by_pointer.remove(&pointer) {
            Some(slot) => {
                self.free_slots.push(slot);
                self.slot_by_index.push(slot);
                proof {
                    assert(self.state() =~= with_dealloc(old(self).state(), pointer));
                }
                true
            },
            None => false,
        }
    }

    /// A reallocation keeps the slot; fails where the old pointer holds
    /// none.
    fn preprocess_realloc(&mut self, new_pointer: u64, old_pointer: u64) -> (ok: bool)
        ensures
            ok == !with_realloc(old(self).state(), new_pointer, old_pointer).failed,
            ok ==> final(self).state() == with_realloc(old(self).state(), new_pointer, old_pointer),
            final(self).used_frames@ == old(self).used_frames@,
            final(self).slot_count == old(self).slot_count,
    {
        match self.slot_by_pointer.remove(&old_pointer) {
            Some(slot) => {
                self.slot_by_pointer.insert(new_pointer, slot);
                self.slot_by_index.push(slot);
                proof {
                    assert(self.state() =~= with_realloc(old(self).state(), new_pointer, old_pointer));
                }
                true
            },
            None => false,
        }
    }
}

/// The first pass over the operations, or nothing where it fails.
fn preprocess(data: &Data, selected: &Vec<bool>) -> (exporter: Option<Exporter>)
    requires
        replayable(data, selected@),
    ensures
        exporter is None <==> preprocessed(data, selected@).failed,
        exporter matches Some(e) ==> e.state() == preprocessed(data, selected@) && e.used_frames@.len()
            == data.frames@.len(),
{
    let frame_count = data.frames.len();
    let mut used_frames: Vec<u64> = Vec::new();
    while used_frames.len() < frame_count
        invariant
            used_frames@.len() <= frame_count,
            forall|f: int| 0 <= f < used_frames@.len() ==> #[trigger] used_frames@[f] == 0,
        decreases frame_count - used_frames@.len(),
    {
        used_frames.push(0);
    }
    let mut e = Exporter {
        free_slots: Vec::new(),
        slot_count: 0,
        slot_by_pointer: HashMap::new(),
        slot_by_index: Vec::new(),
        used_frames,
    };
    proof {
        assert(e.used_frames@.len() == frame_count);
        assert(as_counts(e.used_frames@) =~= Seq::new(frame_count as nat, |f: int| 0nat));
        assert(e.slot_by_pointer@ == Map::<u64, usize>::empty());
        assert(e.state() =~= initial_slots(data.frames@.len()));
    }
    let n = data.operations.len();
    let mut k: usize = 0;
    while k < n
        invariant
            n == data.operations@.len(),
            replayable(data, selected@),
            frame_count == data.frames@.len(),
            0 <= k <= n,
            e.state() == slots_after(data, selected@, k as nat),
            e.used_frames@.len() == frame_count,
            e.slot_count <= k,
        decreases n - k,
    {
        proof {
            assert(operation_readable(data, selected@, k as int));
        }
        let ghost before = e.state();
        proof {
            assert(slots_after(data, selected@, (k + 1) as nat) == after_operation(data, selected@, before, k as int));
        }
        let op = data.operations[k];
        let id = op.id();
        let a = data.get_allocation(id);
        let count = data.allocations.len();
        proof {
            assert(id.0 < count);
        }
        let index = id.0 as usize;
        if op.is_allocation() {
            if selected[index] {
                if !e.count_backtrace(data, a.backtrace) {
                    proof {
                        lemma_failure_stays(data, selected@, (k + 1) as nat, n as nat);
                    }
                    return None;
                }
                e.preprocess_alloc(a.pointer);
            }
        } else if op.is_reallocation() {
            let previous = a.reallocated_from.unwrap();
            let old = data.get_allocation(previous);
            proof {
                assert(previous.0 < count);
            }
            let new_ok = selected[index];
            let old_ok = selected[previous.0 as usize];
            if new_ok || old_ok {
                if !e.count_backtrace(data, a.backtrace) {
                    proof {
                        lemma_failure_stays(data, selected@, (k + 1) as nat, n as nat);
                    }
                    return None;
                }
            }
            if new_ok && old_ok {
                if !e.preprocess_realloc(a.pointer, old.pointer) {
                    proof {
                        lemma_failure_stays(data, selected@, (k + 1) as nat, n as nat);
                    }
                    return None;
                }
            } else if new_ok {
                e.preprocess_alloc(a.pointer);
            } else if old_ok {
                if !e.preprocess_dealloc(old.pointer) {
                    proof {
                        lemma_failure_stays(data, selected@, (k + 1) as nat, n as nat);
                    }
                    return None;
                }
            }
        } else {
            if selected[index] {
                let freed = match a.deallocation {
                    Some(ref deallocation) => deallocation.backtrace,
                    None => None,
                };
                if let Some(b) = freed {
                    if !e.count_backtrace(data, b) {
                        proof {
                            lemma_failure_stays(data, selected@, (k + 1) as nat, n as nat);
                        }
                        return None;
                    }
                }
                if !e.preprocess_dealloc(a.pointer) {
                    proof {
                        lemma_failure_stays(data, selected@, (k + 1) as nat, n as nat);
                    }
                    return None;
                }
            }
        }
        proof {
            assert(e.state() == after_operation(data, selected@, before, k as int));
        }
        k = k + 1;
    }
    Some(e)
}

/// Numbers the used frames: the most used first and, among frames used
/// equally often, the one with the larger identifier first. Gives the
/// number of each frame, by identifier, and the order.
fn frame_order(used: &Vec<u64>) -> (result: (Vec<u64>, Ghost<Seq<usize>>))
    ensures
        ranked(as_counts(used@), result.1@),
        result.0@.len() == used@.len(),
        forall|f: int| 0 <= f < used@.len() ==> #[trigger] result.0@[f] == rank_of(result.1@, f as usize),
{
    let n = used.len();
    let mut pairs: Vec<(u64, u64)> = Vec::new();
    let mut f: usize = 0;
    while f < n
        invariant
            n == used@.len(),
            0 <= f <= n,
            forall|j: int| #![trigger pairs@[j]] 0 <= j < pairs@.len() ==> pairs@[j].1 < f && pairs@[j].0 == used@[pairs@[j].1 as int]
                && pairs@[j].0 > 0,
            values_ascending(pairs@),
            forall|g: int| 0 <= g < f && #[trigger] used@[g] > 0 ==> exists|j: int| 0 <= j < pairs@.len() && pairs@[j].1 == g,
        decreases n - f,
    {
        let count = used[f];
        if count > 0 {
            let ghost before = pairs@;
            pairs.push((count, f as u64));
            proof {
                assert forall|g: int| 0 <= g < f + 1 && #[trigger] used@[g] > 0 implies exists|j: int|
                    0 <= j < pairs@.len() && pairs@[j].1 == g by {
                    if g == f {
                        assert(pairs@[before.len() as int].1 == g);
                    } else {
                        let j = choose|j: int| 0 <= j < before.len() && before[j].1 == g;
                        assert(pairs@[j] == before[j]);
                    }
                }
            }
        }
        f = f + 1;
    }
    let ghost unsorted = pairs@;
    sort_by_key(&mut pairs);
    let ghost sorted = pairs@;
    proof {
        lemma_stably_sorted_stable(unsorted);
        lemma_stably_sorted_members(unsorted);
    }
    let mut ranks: Vec<u64> = Vec::new();
    while ranks.len() < n
        invariant
            ranks@.len() <= n,
            forall|g: int| 0 <= g < ranks@.len() ==> #[trigger] ranks@[g] == 0,
        decreases n - ranks@.len(),
    {
        ranks.push(0);
    }
    let m = pairs.len();
    let ghost mut order: Seq<usize> = Seq::empty();
    let mut i: usize = 0;
    while i < m
        invariant
            n == used@.len(),
            m == sorted.len(),
            pairs@ == sorted,
            sorted == stably_sorted(unsorted),
            strictly_ascending(sorted),
            forall|j: int| 0 <= j < m ==> unsorted.contains(#[trigger] sorted[j]),
            forall|j: int| #![trigger unsorted[j]] 0 <= j < unsorted.len() ==> unsorted[j].1 < n && unsorted[j].0
                == used@[unsorted[j].1 as int] && unsorted[j].0 > 0,
            0 <= i <= m,
            ranks@.len() == n,
            order.len() == i,
            forall|j: int| #![trigger order[j]] 0 <= j < i ==> order[j] as int == sorted[m - 1 - j].1,
            forall|j: int| #![trigger order[j]] 0 <= j < i ==> ranks@[order[j] as int] == j,
            forall|g: int| 0 <= g < n && !order.contains(g as usize) ==> #[trigger] ranks@[g] == 0,
        decreases m - i,
    {
        let entry = pairs[m - 1 - i];
        proof {
            assert(unsorted.contains(sorted[m - 1 - i]));
        }
        let frame = entry.1 as usize;
        proof {
            assert(frame as int == sorted[m - 1 - i].1);
            assert forall|j: int| 0 <= j < i implies #[trigger] order[j] != frame by {
                let p = m - 1 - j;
                let q = m - 1 - i;
                assert(q < p);
                assert(sorted[q].0 < sorted[p].0 || (sorted[q].0 == sorted[p].0 && sorted[q].1 < sorted[p].1));
                assert(unsorted.contains(sorted[p]));
                assert(unsorted.contains(sorted[q]));
            }
        }
        let ghost ranks_before = ranks@;
        ranks.set(frame, i as u64);
        proof {
            let before = order;
            order = order.push(frame);
            assert forall|g: int| 0 <= g < n && !order.contains(g as usize) implies #[trigger] ranks@[g] == 0 by {
                assert(order[i as int] == frame);
                if before.contains(g as usize) {
                    let j = choose|j: int| 0 <= j < before.len() && before[j] == g as usize;
                    assert(order[j] == g as usize);
                }
                assert(ranks@[g] == ranks_before[g]);
            }
        }
        i = i + 1;
    }
    proof {
        let uses = as_counts(used@);
        assert forall|j: int| #![trigger order[j]] 0 <= j < order.len() implies order[j] < uses.len() && uses[order[j] as int] > 0 by {
            assert(unsorted.contains(sorted[m - 1 - j]));
        }
        assert forall|g: int| 0 <= g < uses.len() && #[trigger] uses[g] > 0 implies exists|j: int|
            0 <= j < order.len() && order[j] == g by {
            assert(used@[g] > 0);
            let u = choose|u: int| 0 <= u < unsorted.len() && unsorted[u].1 == g;
            assert(sorted.contains(unsorted[u]));
            let p = choose|p: int| 0 <= p < sorted.len() && sorted[p] == unsorted[u];
            assert(order[m - 1 - p] == g);
        }
        assert forall|a: int, b: int| #![trigger order[a], order[b]] 0 <= a < b < order.len() implies uses[order[a] as int]
            > uses[order[b] as int] || (uses[order[a] as int] == uses[order[b] as int] && order[a] > order[b]) by {
            let p = m - 1 - a;
            let q = m - 1 - b;
            assert(sorted[q].0 < sorted[p].0 || (sorted[q].0 == sorted[p].0 && sorted[q].1 < sorted[p].1));
            assert(unsorted.contains(sorted[p]));
            assert(unsorted.contains(sorted[q]));
        }
        assert forall|g: int| 0 <= g < n implies #[trigger] ranks@[g] == rank_of(order, g as usize) by {
            if order.contains(g as usize) {
                let j = order.index_of(g as usize);
                assert(order[j] == g as usize);
                assert forall|x: int, y: int| 0 <= x < y < order.len() implies order[x] != order[y] by {
                    let p = m - 1 - x;
                    let q = m - 1 - y;
                    assert(sorted[q].0 < sorted[p].0 || (sorted[q].0 == sorted[p].0 && sorted[q].1 < sorted[p].1));
                    assert(unsorted.contains(sorted[p]));
                    assert(unsorted.contains(sorted[q]));
                }
            }
        }
    }
    (ranks, Ghost(order))
}

/// Whether `ranks` holds the number of each frame under `order`.
pub open spec fn ranks_follow(ranks: Seq<u64>, order: Seq<usize>, frame_count: nat) -> bool {
    &&& ranks.len() == frame_count
    &&& forall|f: int| 0 <= f < frame_count ==> #[trigger] ranks[f] == rank_of(order, f as usize)
}

/// Appends the walk from the previous backtrace's frames to those of `b`.
fn traverse(
    out: &mut Vec<u64>,
    data: &Data,
    last: Option<BacktraceId>,
    b: BacktraceId,
    ranks: &Vec<u64>,
    Ghost(order): Ghost<Seq<usize>>,
)
    requires
        backtrace_usable(data, b),
        last matches Some(l) ==> backtrace_usable(data, l),
        ranks_follow(ranks@, order, data.frames@.len()),
    ensures
        final(out)@ == old(out)@ + traversal(data, last, b, order),
{
    let ghost start = out@;
    let ghost path = path_of(data, b);
    let frames = data.get_frame_ids(b);
    let len = frames.len();
    let (last_len, common) = match last {
        Some(l) => {
            let ghost other = path_of(data, l);
            let last_frames = data.get_frame_ids(l);
            let last_len = last_frames.len();
            let mut i: usize = 0;
            while i < len && i < last_len && frames[len - 1 - i] == last_frames[last_len - 1 - i]
                invariant
                    frames@ == frames_of(data, b),
                    last_frames@ == frames_of(data, l),
                    len == frames@.len(),
                    last_len == last_frames@.len(),
                    path == frames@.reverse(),
                    other == last_frames@.reverse(),
                    0 <= i <= len,
                    i <= last_len,
                    forall|j: int| 0 <= j < i ==> path[j] == other[j],
                decreases len - i,
            {
                i = i + 1;
            }
            proof {
                lemma_common_length(path, other, i as int);
            }
            (last_len, i)
        },
        None => (0, 0),
    };
    proof {
        assert(steps_up(0) =~= Seq::<u64>::empty());
        assert(out@ =~= start + steps_up(0));
    }
    let ups = last_len - common;
    let mut u: usize = 0;
    while u < ups
        invariant
            0 <= u <= ups,
            out@ == start + steps_up(u as nat),
        decreases ups - u,
    {
        out.push(5);
        out.push(0);
        out.push(0);
        out.push(0);
        u = u + 1;
        proof {
            assert(out@ =~= start + steps_up(u as nat));
        }
    }
    let ghost rest = path.skip(common as int);
    let mut j: usize = common;
    proof {
        assert(rest.take(0) =~= Seq::<usize>::empty());
        assert(out@ =~= start + steps_up(ups as nat) + steps_down(rest.take(0), order));
    }
    while j < len
        invariant
            frames@ == frames_of(data, b),
            len == frames@.len(),
            path == frames@.reverse(),
            rest == path.skip(common as int),
            common <= j <= len,
            ranks_follow(ranks@, order, data.frames@.len()),
            forall|x: int| 0 <= x < frames_of(data, b).len() ==> #[trigger] frames_of(data, b)[x] < data.frames@.len(),
            out@ == start + steps_up(ups as nat) + steps_down(rest.take(j - common), order),
        decreases len - j,
    {
        let frame = frames[len - 1 - j];
        let rank = ranks[frame];
        proof {
            assert(frame == path[j as int]);
            assert(rest.take(j + 1 - common).drop_last() =~= rest.take(j - common));
            assert(rest.take(j + 1 - common).last() == frame);
        }
        out.push(4);
        out.push(rank);
        out.push(0);
        out.push(0);
        j = j + 1;
        proof {
            assert(out@ =~= start + steps_up(ups as nat) + steps_down(rest.take(j - common), order));
        }
    }
    proof {
        assert(rest.take(len - common) =~= rest);
        assert(out@ =~= start + traversal(data, last, b, order));
    }
}

/// Appends the words of one operation.
fn record_into(out: &mut Vec<u64>, kind: u64, slot: usize, timestamp: u64, size: u64)
    ensures
        final(out)@ == old(out)@ + record(kind, slot, timestamp, size),
{
    out.push(kind);
    out.push(slot as u64);
    out.push(timestamp);
    out.push(size);
    proof {
        assert(out@ =~= old(out)@ + record(kind, slot, timestamp, size));
    }
}

/// Appends the words of operation `k`, paired with `slot`; gives the
/// backtrace walked to last.
fn operation_into(
    out: &mut Vec<u64>,
    data: &Data,
    selected: &Vec<bool>,
    k: usize,
    slot: usize,
    last: Option<BacktraceId>,
    ranks: &Vec<u64>,
    Ghost(order): Ghost<Seq<usize>>,
) -> (now: Option<BacktraceId>)
    requires
        replayable(data, selected@),
        k < data.operations@.len(),
        last matches Some(l) ==> backtrace_usable(data, l),
        ranks_follow(ranks@, order, data.frames@.len()),
    ensures
        final(out)@ == old(out)@ + operation_words(data, selected@, order, k as int, slot, last).0,
        now == operation_words(data, selected@, order, k as int, slot, last).1,
        now matches Some(l) ==> backtrace_usable(data, l),
{
    proof {
        assert(operation_readable(data, selected@, k as int));
    }
    let ghost start = out@;
    let op = data.operations[k];
    let id = op.id();
    let a = data.get_allocation(id);
    let count = data.allocations.len();
    proof {
        assert(id.0 < count);
    }
    let index = id.0 as usize;
    if op.is_allocation() {
        if selected[index] {
            traverse(out, data, last, a.backtrace, ranks, Ghost(order));
            record_into(out, 1, slot, a.timestamp.0, a.size);
            proof {
                assert(out@ =~= start + operation_words(data, selected@, order, k as int, slot, last).0);
            }
            Some(a.backtrace)
        } else {
            proof {
                assert(out@ =~= start + operation_words(data, selected@, order, k as int, slot, last).0);
            }
            last
        }
    } else if op.is_reallocation() {
        let previous = a.reallocated_from.unwrap();
        let old = data.get_allocation(previous);
        proof {
            assert(previous.0 < count);
        }
        let new_ok = selected[index];
        let old_ok = selected[previous.0 as usize];
        let now = if new_ok || old_ok {
            traverse(out, data, last, a.backtrace, ranks, Ghost(order));
            Some(a.backtrace)
        } else {
            last
        };
        if new_ok && old_ok {
            record_into(out, 3, slot, a.timestamp.0, a.size);
        } else if new_ok {
            record_into(out, 1, slot, a.timestamp.0, a.size);
        } else if old_ok {
            record_into(out, 2, slot, old.timestamp.0, 0);
        }
        proof {
            assert(out@ =~= start + operation_words(data, selected@, order, k as int, slot, last).0);
        }
        now
    } else {
        if selected[index] {
            let freed = match a.deallocation {
                Some(ref deallocation) => deallocation.backtrace,
                None => None,
            };
            let now = match freed {
                Some(b) => {
                    traverse(out, data, last, b, ranks, Ghost(order));
                    Some(b)
                },
                None => last,
            };
            record_into(out, 2, slot, a.timestamp.0, 0);
            proof {
                assert(out@ =~= start + operation_words(data, selected@, order, k as int, slot, last).0);
            }
            now
        } else {
            proof {
                assert(out@ =~= start + operation_words(data, selected@, order, k as int, slot, last).0);
            }
            last
        }
    }
}

/// The export of the data's operations on the selected allocations, as
/// words: `selected` says of each allocation, by identifier, whether it is
/// taken. Nothing where the first pass fails: a freed pointer holds no
/// slot, or a frame is used more often than 64 bits count.
pub fn export_as_replay(data: &Data, selected: &Vec<bool>) -> (words: Option<Vec<u64>>)
    requires
        replayable(data, selected@),
    ensures
        words is None <==> preprocessed(data, selected@).failed,
        words matches Some(w) ==> exists|order: Seq<usize>|
            #![trigger ranked(preprocessed(data, selected@).uses, order)]
            ranked(preprocessed(data, selected@).uses, order) && w@ == replay_words(data, selected@, order),
{
    let exporter = match preprocess(data, selected) {
        Some(e) => e,
        None => return None,
    };
    let ghost state = preprocessed(data, selected@);
    let (ranks, order) = frame_order(&exporter.used_frames);
    let slots = &exporter.slot_by_index;
    let n = if data.operations.len() < slots.len() {
        data.operations.len()
    } else {
        slots.len()
    };
    let mut out: Vec<u64> = Vec::new();
    out.push(exporter.slot_count as u64);
    let ghost start = out@;
    let mut last: Option<BacktraceId> = None;
    let mut k: usize = 0;
    while k < n
        invariant
            replayable(data, selected@),
            n <= data.operations@.len(),
            n <= slots@.len(),
            slots@ == state.slot_by_index,
            ranks_follow(ranks@, order@, data.frames@.len()),
            0 <= k <= n,
            out@ == start + words_for(data, selected@, order@, slots@, k as nat).0,
            last == words_for(data, selected@, order@, slots@, k as nat).1,
            last matches Some(l) ==> backtrace_usable(data, l),
        decreases n - k,
    {
        let ghost before = out@;
        last = operation_into(&mut out, data, selected, k, slots[k], last, &ranks, Ghost(order@));
        k = k + 1;
        proof {
            assert(out@ =~= start + words_for(data, selected@, order@, slots@, k as nat).0);
        }
    }
    out.push(0);
    proof {
        assert(out@ =~= replay_words(data, selected@, order@));
        assert(state.uses == as_counts(exporter.used_frames@));
        assert(ranked(preprocessed(data, selected@).uses, order@));
    }
    Some(out)
}

/// Whether frame `x` comes before frame `y` in the numbering.
pub open spec fn ranks_before(uses: Seq<nat>, x: usize, y: usize) -> bool {
    uses[x as int] > uses[y as int] || (uses[x as int] == uses[y as int] && x > y)
}

proof fn lemma_ranked_prefix(uses: Seq<nat>, a: Seq<usize>, b: Seq<usize>, n: int)
    requires
        ranked(uses, a),
        ranked(uses, b),
        0 <= n <= a.len(),
        n <= b.len(),
    ensures
        forall|k: int| 0 <= k < n ==> a[k] == b[k],
    decreases n,
{
    if n > 0 {
        let i = n - 1;
        lemma_ranked_prefix(uses, a, b, i);
        assert(a[i] < uses.len() && uses[a[i] as int] > 0);
        assert(b[i] < uses.len() && uses[b[i] as int] > 0);
        let j = choose|j: int| 0 <= j < b.len() && b[j] == a[i] as int;
        let h = choose|h: int| 0 <= h < a.len() && a[h] == b[i] as int;
        if j < i {
            assert(a[j] == b[j]);
            assert(ranks_before(uses, a[j], a[i]));
        }
        if h < i {
            assert(a[h] == b[h]);
            assert(ranks_before(uses, b[h], b[i]));
        }
        if j > i && h > i {
            assert(ranks_before(uses, b[i], b[j]));
            assert(ranks_before(uses, a[i], a[h]));
        }
    }
}

/// The numbering of the frames is fixed by their use counts: two orders
/// that both rank the used frames are the same, so the export is fixed by
/// the data and the selection.
pub proof fn lemma_ranking_unique(uses: Seq<nat>, a: Seq<usize>, b: Seq<usize>)
    requires
        ranked(uses, a),
        ranked(uses, b),
    ensures
        a == b,
{
    if a.len() < b.len() {
        lemma_ranked_prefix(uses, a, b, a.len() as int);
        let i = a.len() as int;
        assert(b[i] < uses.len() && uses[b[i] as int] > 0);
        let j = choose|j: int| 0 <= j < a.len() && a[j] == b[i] as int;
        assert(a[j] == b[j]);
        assert(ranks_before(uses, b[j], b[i]));
    } else if b.len() < a.len() {
        lemma_ranked_prefix(uses, b, a, b.len() as int);
        let i = b.len() as int;
        assert(a[i] < uses.len() && uses[a[i] as int] > 0);
        let j = choose|j: int| 0 <= j < b.len() && b[j] == a[i] as int;
        assert(b[j] == a[j]);
        assert(ranks_before(uses, a[j], a[i]));
    } else {
        lemma_ranked_prefix(uses, a, b, a.len() as int);
        assert(a =~= b);
    }
}

pub(crate) fn backtrace_usable_now(data: &Data, b: BacktraceId) -> (r: bool)
    ensures
        r == backtrace_usable(data, b),
{
    let count = data.backtraces.len();
    if b.0 as usize >= count {
        return false;
    }
    let (offset, length) = data.backtraces[b.0 as usize];
    if offset as u64 + length as u64 > data.backtraces_storage.len() as u64 {
        return false;
    }
    let frames = data.get_frame_ids(b);
    let frame_count = data.frames.len();
    let mut i: usize = 0;
    while i < frames.len()
        invariant
            frames@ == frames_of(data, b),
            frame_count == data.frames@.len(),
            0 <= i <= frames@.len(),
            forall|j: int| 0 <= j < i ==> #[trigger] frames@[j] < frame_count,
        decreases frames@.len() - i,
    {
        if frames[i] >= frame_count {
            return false;
        }
        i = i + 1;
    }
    true
}

fn operation_readable_now(data: &Data, selected: &Vec<bool>, k: usize) -> (r: bool)
    requires
        selected@.len() == data.allocations@.len(),
        k < data.operations@.len(),
    ensures
        r == operation_readable(data, selected@, k as int),
{
    let op = data.operations[k];
    let id = op.id();
    let count = data.allocations.len();
    if id.0 >= count as u64 {
        return false;
    }
    let a = data.get_allocation(id);
    let index = id.0 as usize;
    if op.is_reallocation() {
        let previous = match a.reallocated_from {
            Some(p) => p,
            None => return false,
        };
        if previous.0 >= count as u64 {
            return false;
        }
        let old = data.get_allocation(previous);
        if old.deallocation.is_none() {
            return false;
        }
        if selected[index] || selected[previous.0 as usize] {
            return backtrace_usable_now(data, a.backtrace);
        }
        true
    } else if op.is_allocation() {
        !selected[index] || backtrace_usable_now(data, a.backtrace)
    } else {
        match a.deallocation {
            None => false,
            Some(ref deallocation) => match deallocation.backtrace {
                Some(b) => !selected[index] || backtrace_usable_now(data, b),
                None => true,
            },
        }
    }
}

/// Whether the data's operations can be exported with this selection.
pub fn can_replay(data: &Data, selected: &Vec<bool>) -> (r: bool)
    ensures
        r == replayable(data, selected@),
{
    if selected.len() != data.allocations.len() {
        return false;
    }
    let n = data.operations.len();
    let mut k: usize = 0;
    while k < n
        invariant
            n == data.operations@.len(),
            selected@.len() == data.allocations@.len(),
            0 <= k <= n,
            forall|j: int| 0 <= j < k ==> #[trigger] operation_readable(data, selected@, j),
        decreases n - k,
    {
        if !operation_readable_now(data, selected, k) {
            return false;
        }
        k = k + 1;
    }
    true
}

} // verus!
