use vstd::prelude::*;

verus! {

/// The number of bits of an operation's raw value that hold its kind.
pub open spec fn operation_kind_of(raw: u64) -> u64 {
    raw >> 62u64
}

/// The allocation that an operation's raw value refers to.
pub open spec fn operation_target_of(raw: u64) -> u64 {
    raw & !(3u64 << 62u64)
}

/// Identifies an allocation by its position in the loaded data.
#[derive(Copy, Clone, PartialEq, Eq, PartialOrd, Ord, Debug, Hash, Structural)]
pub struct AllocationId(pub u64);

impl AllocationId {
    pub fn new(raw: u64) -> (id: AllocationId)
        ensures
            id.0 == raw,
    {
        AllocationId(raw)
    }

    pub fn raw(&self) -> (raw: u64)
        ensures
            raw == self.0,
    {
        self.0
    }
}

/// An allocation, deallocation or reallocation of one allocation, packed in
/// one integer: the kind in the two highest bits, the allocation below them.
#[derive(Copy, Clone, PartialEq, Eq, Debug, Structural)]
pub struct OperationId(pub u64);

proof fn lemma_operation_bits(id: u64, tag: u64)
    requires
        id < 0x4000_0000_0000_0000,
        tag < 4,
    ensures
        operation_kind_of((tag << 62u64) | id) == tag,
        operation_target_of((tag << 62u64) | id) == id,
{
    assert(((tag << 62u64) | id) >> 62u64 == tag) by (bit_vector)
        requires
            id < 0x4000_0000_0000_0000u64,
            tag < 4u64,
    ;
    assert(((tag << 62u64) | id) & !(3u64 << 62u64) == id) by (bit_vector)
        requires
            id < 0x4000_0000_0000_0000u64,
            tag < 4u64,
    ;
}

impl OperationId {
    /// The operation allocating `id`.
    pub fn new_allocation(id: AllocationId) -> (op: OperationId)
        ensures
            op.0 == id.0,
            id.0 < 0x4000_0000_0000_0000 ==> operation_kind_of(op.0) == 0 && operation_target_of(op.0)
                == id.0,
    {
        proof {
            if id.0 < 0x4000_0000_0000_0000 {
                lemma_operation_bits(id.0, 0);
                assert((0u64 << 62u64) | id.0 == id.0) by (bit_vector);
            }
        }
        OperationId(id.0)
    }

    /// The operation freeing `id`.
    pub fn new_deallocation(id: AllocationId) -> (op: OperationId)
        ensures
            op.0 == (1u64 << 62u64) | id.0,
            id.0 < 0x4000_0000_0000_0000 ==> operation_kind_of(op.0) == 1 && operation_target_of(op.0)
                == id.0,
    {
        proof {
            if id.0 < 0x4000_0000_0000_0000 {
                lemma_operation_bits(id.0, 1);
            }
        }
        OperationId((1u64 << 62u64) | id.0)
    }

    /// The operation by which `id` was created out of an earlier allocation.
    pub fn new_reallocation(id: AllocationId) -> (op: OperationId)
        ensures
            op.0 == (2u64 << 62u64) | id.0,
            id.0 < 0x4000_0000_0000_0000 ==> operation_kind_of(op.0) == 2 && operation_target_of(op.0)
                == id.0,
    {
        proof {
            if id.0 < 0x4000_0000_0000_0000 {
                lemma_operation_bits(id.0, 2);
            }
        }
        OperationId((2u64 << 62u64) | id.0)
    }

    pub fn is_allocation(&self) -> (r: bool)
        ensures
            r == (operation_kind_of(self.0) == 0),
    {
        (self.0 >> 62u64) == 0
    }

    pub fn is_deallocation(&self) -> (r: bool)
        ensures
            r == (operation_kind_of(self.0) == 1),
    {
        (self.0 >> 62u64) == 1
    }

    pub fn is_reallocation(&self) -> (r: bool)
        ensures
            r == (operation_kind_of(self.0) == 2),
    {
        (self.0 >> 62u64) == 2
    }

    /// The allocation this operation is about.
    pub fn id(&self) -> (id: AllocationId)
        ensures
            id.0 == operation_target_of(self.0),
    {
        AllocationId(self.0 & !(3u64 << 62u64))
    }
}

/// The address of an instruction.
#[derive(Copy, Clone, PartialEq, Eq, Hash, Debug, Structural)]
pub struct CodePointer(pub u64);

impl CodePointer {
    pub fn new(address: u64) -> (p: CodePointer)
        ensures
            p.0 == address,
    {
        CodePointer(address)
    }

    pub fn raw(&self) -> (raw: u64)
        ensures
            raw == self.0,
    {
        self.0
    }
}

impl From<u64> for CodePointer {
    fn from(address: u64) -> (p: CodePointer) {
        CodePointer(address)
    }
}

impl vstd::std_specs::convert::FromSpecImpl<u64> for CodePointer {
    open spec fn obeys_from_spec() -> bool {
        true
    }

    open spec fn from_spec(address: u64) -> CodePointer {
        CodePointer(address)
    }
}

impl From<CodePointer> for u64 {
    fn from(pointer: CodePointer) -> (address: u64) {
        pointer.0
    }
}

impl vstd::std_specs::convert::FromSpecImpl<CodePointer> for u64 {
    open spec fn obeys_from_spec() -> bool {
        true
    }

    open spec fn from_spec(pointer: CodePointer) -> u64 {
        pointer.0
    }
}

/// Identifies a backtrace by its position in the loaded data.
#[derive(Copy, Clone, PartialEq, Eq, PartialOrd, Ord, Hash, Debug, Structural)]
pub struct BacktraceId(pub u32);

impl BacktraceId {
    pub fn new(raw_id: u32) -> (id: BacktraceId)
        ensures
            id.0 == raw_id,
    {
        BacktraceId(raw_id)
    }

    pub fn raw(&self) -> (raw: u32)
        ensures
            raw == self.0,
    {
        self.0
    }
}

/// Identifies an interned string; the raw value is the string's position
/// in the interner plus one, so that it is never zero.
#[derive(Copy, Clone, PartialEq, Eq, PartialOrd, Ord, Hash, Debug, Structural)]
pub struct StringId(pub u32);

impl StringId {
    /// The identifier of the string at `position` in the interner.
    pub fn from_usize(position: usize) -> (id: StringId)
        requires
            position < u32::MAX,
        ensures
            id.0 == position + 1,
    {
        StringId((position + 1) as u32)
    }

    /// The position in the interner of the string that this identifies.
    pub fn to_usize(self) -> (position: usize)
        requires
            self.0 > 0,
        ensures
            position == self.0 - 1,
    {
        (self.0 - 1) as usize
    }
}

/// Protection flags of a memory mapping, as `mmap` takes them.
#[derive(Copy, Clone, Debug)]
pub struct ProtectionFlags(pub u32);

impl ProtectionFlags {
    pub fn is_readable(&self) -> (r: bool)
        ensures
            r == (self.0 & 0x1 != 0),
    {
        self.0 & 0x1 != 0
    }

    pub fn is_writable(&self) -> (r: bool)
        ensures
            r == (self.0 & 0x2 != 0),
    {
        self.0 & 0x2 != 0
    }

    pub fn is_executable(&self) -> (r: bool)
        ensures
            r == (self.0 & 0x4 != 0),
    {
        self.0 & 0x4 != 0
    }

    pub fn is_semaphore(&self) -> (r: bool)
        ensures
            r == (self.0 & 0x8 != 0),
    {
        self.0 & 0x8 != 0
    }

    pub fn grows_down(&self) -> (r: bool)
        ensures
            r == (self.0 & 0x0100_0000 != 0),
    {
        self.0 & 0x0100_0000 != 0
    }

    pub fn grows_up(&self) -> (r: bool)
        ensures
            r == (self.0 & 0x0200_0000 != 0),
    {
        self.0 & 0x0200_0000 != 0
    }
}

/// Flags of a memory mapping, as `mmap` takes them.
#[derive(Copy, Clone, Debug)]
pub struct MapFlags(pub u32);

impl MapFlags {
    pub fn is_shared(&self) -> (r: bool)
        ensures
            r == (self.0 & 0x1 != 0),
    {
        self.0 & 0x1 != 0
    }

    pub fn is_private(&self) -> (r: bool)
        ensures
            r == (self.0 & 0x2 != 0),
    {
        self.0 & 0x2 != 0
    }

    pub fn is_fixed(&self) -> (r: bool)
        ensures
            r == (self.0 & 0x10 != 0),
    {
        self.0 & 0x10 != 0
    }

    pub fn is_anonymous(&self) -> (r: bool)
        ensures
            r == (self.0 & 0x20 != 0),
    {
        self.0 & 0x20 != 0
    }

    pub fn is_uninitialized(&self) -> (r: bool)
        ensures
            r == (self.0 & 0x0400_0000 != 0),
    {
        self.0 & 0x0400_0000 != 0
    }
}

} // verus!
