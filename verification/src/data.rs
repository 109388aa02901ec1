use vstd::prelude::*;
use crate::timestamp::Timestamp;
use crate::ids::{AllocationId, BacktraceId, CodePointer, StringId, ProtectionFlags, MapFlags};

verus! {

/// The allocation flag set on the chunk before this one being in use.
pub const ALLOCATION_IS_PREV_IN_USE: u8 = 1;
/// The allocation flag of a chunk that was mapped on its own.
pub const ALLOCATION_IS_MMAPED: u8 = 2;
/// The allocation flag of a chunk from an arena other than the main one.
pub const ALLOCATION_IN_NON_MAIN_ARENA: u8 = 4;
/// The allocation flag of a chunk that jemalloc handed out.
pub const ALLOCATION_IS_JEMALLOC: u8 = 32;
/// The allocation flag of the control block of a shared pointer.
pub const ALLOCATION_IS_SHARED_PTR: u8 = 64;
/// The allocation flag of a chunk that `calloc` handed out.
pub const ALLOCATION_IS_CALLOC: u8 = 128;

/// A key by which frames of backtraces are grouped: the address, the
/// place in the source, or the function.
#[derive(Copy, Clone, PartialEq, Eq, Debug)]
pub enum SourceKey {
    Address(CodePointer),
    Location(StringId, u32),
    Function(StringId),
}

/// A chain of reallocations: the first allocation, the last one, and how
/// many there are.
#[derive(Clone, Copy, Debug)]
pub struct AllocationChain {
    pub first: AllocationId,
    pub last: AllocationId,
    pub length: u32,
}

/// Where, when and by which thread an allocation was freed.
#[derive(Copy, Clone, Debug)]
pub struct Deallocation {
    pub timestamp: Timestamp,
    pub thread: u32,
    pub backtrace: Option<BacktraceId>,
}

/// One allocation, as the loaded data holds it.
#[derive(Copy, Clone, Debug)]
pub struct Allocation {
    pub pointer: u64,
    pub timestamp: Timestamp,
    pub thread: u32,
    pub size: u64,
    pub backtrace: BacktraceId,
    pub deallocation: Option<Deallocation>,
    pub reallocation: Option<AllocationId>,
    pub reallocated_from: Option<AllocationId>,
    pub first_allocation_in_chain: Option<AllocationId>,
    pub position_in_chain: u32,
    pub flags: u8,
    pub extra_usable_space: u32,
    pub marker: u32,
    pub preceding_free_space: u32,
}

/// Whether `flag` is set in `flags`.
pub open spec fn has_flag(flags: u8, flag: u8) -> bool {
    flags & flag == flag
}

impl Allocation {
    pub fn was_deallocated(&self) -> (r: bool)
        ensures
            r == self.deallocation is Some,
    {
        self.deallocation.is_some()
    }

    pub fn is_shared_ptr(&self) -> (r: bool)
        ensures
            r == has_flag(self.flags, ALLOCATION_IS_SHARED_PTR),
    {
        self.flags & ALLOCATION_IS_SHARED_PTR == ALLOCATION_IS_SHARED_PTR
    }

    pub fn in_non_main_arena(&self) -> (r: bool)
        ensures
            r == has_flag(self.flags, ALLOCATION_IN_NON_MAIN_ARENA),
    {
        self.flags & ALLOCATION_IN_NON_MAIN_ARENA == ALLOCATION_IN_NON_MAIN_ARENA
    }

    pub fn in_main_arena(&self) -> (r: bool)
        ensures
            r == !has_flag(self.flags, ALLOCATION_IN_NON_MAIN_ARENA),
    {
        !self.in_non_main_arena()
    }

    pub fn is_jemalloc(&self) -> (r: bool)
        ensures
            r == has_flag(self.flags, ALLOCATION_IS_JEMALLOC),
    {
        self.flags & ALLOCATION_IS_JEMALLOC == ALLOCATION_IS_JEMALLOC
    }

    pub fn is_mmaped(&self) -> (r: bool)
        ensures
            r == has_flag(self.flags, ALLOCATION_IS_MMAPED),
    {
        self.flags & ALLOCATION_IS_MMAPED == ALLOCATION_IS_MMAPED
    }

    /// The size that the program asked for plus the slack that the
    /// allocator gave on top of it.
    pub fn usable_size(&self) -> (r: u64)
        requires
            self.size + self.extra_usable_space <= u64::MAX,
        ensures
            r == self.size + self.extra_usable_space,
    {
        self.size + self.extra_usable_space as u64
    }

    /// The memory that the allocation takes up, with the allocator's
    /// header in front: one pointer, or two for a chunk mapped on its own.
    pub fn actual_range(&self, pointer_size: u64) -> (r: core::ops::Range<u64>)
        requires
            (if has_flag(self.flags, ALLOCATION_IS_MMAPED) { 2 * pointer_size } else { pointer_size as int })
                <= self.pointer,
            self.pointer + self.size + self.extra_usable_space <= u64::MAX,
        ensures
            r.start == self.pointer - (if has_flag(self.flags, ALLOCATION_IS_MMAPED) {
                2 * pointer_size
            } else {
                pointer_size as int
            }),
            r.end == self.pointer + self.size + self.extra_usable_space,
    {
        let multiplier: u64 = if self.is_mmaped() {
            2
        } else {
            1
        };
        (self.pointer - pointer_size * multiplier)..(self.pointer + self.size
            + self.extra_usable_space as u64)
    }
}

/// What is known of all the allocations made from one backtrace.
#[derive(Debug)]
pub struct GroupStatistics {
    pub first_allocation: Timestamp,
    pub last_allocation: Timestamp,
    pub alloc_count: u64,
    pub alloc_size: u64,
    pub free_count: u64,
    pub free_size: u64,
    pub min_size: u64,
    pub max_size: u64,
}

/// The statistics of a group with no allocation yet.
pub open spec fn empty_stats() -> GroupStatistics {
    GroupStatistics {
        first_allocation: Timestamp(u64::MAX),
        last_allocation: Timestamp(0),
        alloc_count: 0,
        alloc_size: 0,
        free_count: 0,
        free_size: 0,
        min_size: u64::MAX,
        max_size: 0,
    }
}

impl Default for GroupStatistics {
    /// The statistics of a group with no allocation yet: the bounds start
    /// out at the far ends, so that the first allocation sets them.
    fn default() -> (stats: GroupStatistics)
        ensures
            stats == empty_stats(),
            stats.first_allocation.usecs() == u64::MAX,
            stats.last_allocation.usecs() == 0,
            stats.alloc_count == 0,
            stats.alloc_size == 0,
            stats.free_count == 0,
            stats.free_size == 0,
            stats.min_size == u64::MAX,
            stats.max_size == 0,
    {
        GroupStatistics {
            first_allocation: Timestamp::max(),
            last_allocation: Timestamp::min(),
            alloc_count: 0,
            alloc_size: 0,
            free_count: 0,
            free_size: 0,
            min_size: u64::MAX,
            max_size: 0,
        }
    }
}

/// The parameter that a call of `mallopt` sets.
#[derive(Copy, Clone, Debug, PartialEq, Eq, Structural)]
pub enum MalloptKind {
    TrimThreshold,
    TopPad,
    MmapThreshold,
    MmapMax,
    CheckAction,
    Perturb,
    ArenaTest,
    ArenaMax,
    Other(i32),
}

/// The raw parameter number of each named kind.
pub open spec fn mallopt_raw(kind: MalloptKind) -> i32 {
    match kind {
        MalloptKind::TrimThreshold => -1i32,
        MalloptKind::TopPad => -2i32,
        MalloptKind::MmapThreshold => -3i32,
        MalloptKind::MmapMax => -4i32,
        MalloptKind::CheckAction => -5i32,
        MalloptKind::Perturb => -6i32,
        MalloptKind::ArenaTest => -7i32,
        MalloptKind::ArenaMax => -8i32,
        MalloptKind::Other(value) => value,
    }
}

/// The kind of a raw parameter number: the named one where it has a name.
pub open spec fn mallopt_kind(value: i32) -> MalloptKind {
    if value == -1 {
        MalloptKind::TrimThreshold
    } else if value == -2 {
        MalloptKind::TopPad
    } else if value == -3 {
        MalloptKind::MmapThreshold
    } else if value == -4 {
        MalloptKind::MmapMax
    } else if value == -5 {
        MalloptKind::CheckAction
    } else if value == -6 {
        MalloptKind::Perturb
    } else if value == -7 {
        MalloptKind::ArenaTest
    } else if value == -8 {
        MalloptKind::ArenaMax
    } else {
        MalloptKind::Other(value)
    }
}

impl MalloptKind {
    pub fn raw(&self) -> (value: i32)
        ensures
            value == mallopt_raw(*self),
    {
        match *self {
            MalloptKind::TrimThreshold => -1,
            MalloptKind::TopPad => -2,
            MalloptKind::MmapThreshold => -3,
            MalloptKind::MmapMax => -4,
            MalloptKind::CheckAction => -5,
            MalloptKind::Perturb => -6,
            MalloptKind::ArenaTest => -7,
            MalloptKind::ArenaMax => -8,
            MalloptKind::Other(value) => value,
        }
    }

    /// The kind of a raw parameter number: a named one where the number
    /// has a name, else `Other`.
    pub fn from_raw(value: i32) -> (kind: MalloptKind)
        ensures
            kind == mallopt_kind(value),
            mallopt_raw(kind) == value,
            kind is Other <==> !(-8 <= value <= -1),
    {
        if value == -1 {
            MalloptKind::TrimThreshold
        } else if value == -2 {
            MalloptKind::TopPad
        } else if value == -3 {
            MalloptKind::MmapThreshold
        } else if value == -4 {
            MalloptKind::MmapMax
        } else if value == -5 {
            MalloptKind::CheckAction
        } else if value == -6 {
            MalloptKind::Perturb
        } else if value == -7 {
            MalloptKind::ArenaTest
        } else if value == -8 {
            MalloptKind::ArenaMax
        } else {
            MalloptKind::Other(value)
        }
    }
}

/// A call of `mallopt`.
#[derive(Debug)]
pub struct Mallopt {
    pub timestamp: Timestamp,
    pub backtrace: BacktraceId,
    pub thread: u32,
    pub kind: MalloptKind,
    pub value: i32,
    pub result: i32,
}

/// A call of `mmap`.
#[derive(Debug)]
pub struct MemoryMap {
    pub timestamp: Timestamp,
    pub pointer: u64,
    pub length: u64,
    pub backtrace: BacktraceId,
    pub requested_address: u64,
    pub mmap_protection: ProtectionFlags,
    pub mmap_flags: MapFlags,
    pub file_descriptor: u32,
    pub thread: u32,
    pub offset: u64,
}

/// A call of `munmap`.
#[derive(Debug)]
pub struct MemoryUnmap {
    pub timestamp: Timestamp,
    pub pointer: u64,
    pub length: u64,
    pub backtrace: BacktraceId,
    pub thread: u32,
}

/// A call that maps or unmaps memory.
#[derive(Debug)]
pub enum MmapOperation {
    Mmap(MemoryMap),
    Munmap(MemoryUnmap),
}

/// A number of allocations and their total size.
#[derive(Debug)]
pub struct CountAndSize {
    pub count: u64,
    pub size: u64,
}

} // verus!
