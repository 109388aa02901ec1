use bytehound::{AllocationId, OperationId, ProtectionFlags, MapFlags, StringId, CodePointer, BacktraceId};

#[test]
fn test_operation_id() {
    let max = AllocationId::new(0x3fff_ffff_ffff_ffff);
    let id = OperationId::new_allocation(max);
    assert!(id.is_allocation());
    assert!(!id.is_reallocation());
    assert!(!id.is_deallocation());
    assert_eq!(id.id(), max);

    let id = OperationId::new_deallocation(max);
    assert!(!id.is_allocation());
    assert!(!id.is_reallocation());
    assert!(id.is_deallocation());
    assert_eq!(id.id(), max);

    let id = OperationId::new_reallocation(max);
    assert!(!id.is_allocation());
    assert!(id.is_reallocation());
    assert!(!id.is_deallocation());
    assert_eq!(id.id(), max);
}

#[test]
fn operation_id_of_small_allocation() {
    let id = OperationId::new_deallocation(AllocationId::new(5));
    assert_eq!(id.0, (1 << 62) | 5);
    assert_eq!(id.id().raw(), 5);
}

#[test]
fn protection_and_map_flags() {
    let prot = ProtectionFlags(0x1 | 0x4 | 0x0200_0000);
    assert!(prot.is_readable());
    assert!(!prot.is_writable());
    assert!(prot.is_executable());
    assert!(!prot.is_semaphore());
    assert!(!prot.grows_down());
    assert!(prot.grows_up());

    let flags = MapFlags(0x2 | 0x20);
    assert!(!flags.is_shared());
    assert!(flags.is_private());
    assert!(!flags.is_fixed());
    assert!(flags.is_anonymous());
    assert!(!flags.is_uninitialized());
}

#[test]
fn string_id_round_trip() {
    let id = StringId::from_usize(41);
    assert_eq!(id.0, 42);
    assert_eq!(id.to_usize(), 41);
    assert_eq!(CodePointer::new(0x1234).raw(), 0x1234);
    assert_eq!(BacktraceId::new(7).raw(), 7);
}

#[test]
fn code_pointers_convert_to_and_from_addresses() {
    assert_eq!(CodePointer::from(0x1234u64).raw(), 0x1234);
    assert_eq!(u64::from(CodePointer::new(0x77)), 0x77);
    assert_eq!(CodePointer::from(u64::from(CodePointer::new(9))), CodePointer::new(9));
}
