use health_sync::error::HookError;
use health_sync::registry::{HookHandle, HookRecord, HookRegistry};
use health_sync::state::HookState;

fn record(target: u32, trampoline: u32) -> HookRecord {
    HookRecord::new(target, 0x6000_0000, trampoline, vec![0x55, 0x8B, 0xEC, 0x6A, 0xFF]).unwrap()
}

#[test]
fn handle_refuses_a_null_original() {
    assert_eq!(HookHandle::new(0x1000, 0), Err(HookError::BadAddress));
    let handle = HookHandle::new(0x1000, 0x2000).unwrap();
    assert_eq!(handle.target(), 0x1000);
    assert_eq!(handle.original(), 0x2000);
}

#[test]
fn trampoline_is_the_saved_bytes_and_a_jump_back() {
    let made = HookRecord::new(0x72_8640, 0x6000_0000, 0x1000_0000, vec![0x50, 0x51, 0x52, 0x53, 0x54]).unwrap();
    let trampoline = made.trampoline();
    assert_eq!(trampoline.address(), 0x1000_0000);
    // The jump stands at 0x1000_0005 and leads to 0x72_8645:
    // 0x72_8645 - 0x1000_000A = 0xF072_863B.
    assert_eq!(trampoline.code(), &vec![0x50, 0x51, 0x52, 0x53, 0x54, 0xE9, 0x3B, 0x86, 0x72, 0xF0]);
}

#[test]
fn record_needs_five_saved_bytes_and_a_trampoline() {
    assert!(HookRecord::new(1, 2, 3, vec![0; 4]).is_none());
    assert!(HookRecord::new(1, 2, 3, vec![0; 6]).is_none());
    assert!(HookRecord::new(1, 2, 0, vec![0; 5]).is_none());
    let made = HookRecord::new(0x72_8640, 0x6000_0000, 0x1000_0000, vec![0x50, 0x51, 0x52, 0x53, 0x54]).unwrap();
    assert_eq!(made.target(), 0x72_8640);
    assert_eq!(made.replacement(), 0x6000_0000);
    assert_eq!(made.state(), HookState::Created);
    assert_eq!(made.original(), &vec![0x50, 0x51, 0x52, 0x53, 0x54]);
    assert_eq!(made.trampoline().address(), 0x1000_0000);
    assert_eq!(made.trampoline().code().len(), 10);
}

#[test]
fn lookup_in_an_empty_registry_finds_nothing() {
    let registry = HookRegistry::new();
    assert!(!registry.contains(0x1000));
    assert_eq!(registry.lookup(0x1000).err(), Some(HookError::NotFound));
}

#[test]
fn insert_then_lookup_finds_the_record() {
    let mut registry = HookRegistry::new();
    assert_eq!(registry.insert(record(0x1000, 0x9000)), Ok(()));
    assert_eq!(registry.insert(record(0x2000, 0x9010)), Ok(()));
    assert!(registry.contains(0x1000));
    let found = registry.lookup(0x2000).ok().unwrap();
    assert_eq!(found.target(), 0x2000);
    assert_eq!(found.trampoline().address(), 0x9010);
    assert_eq!(registry.lookup(0x3000).err(), Some(HookError::NotFound));
}

#[test]
fn insert_on_a_taken_target_is_refused() {
    let mut registry = HookRegistry::new();
    assert_eq!(registry.insert(record(0x1000, 0x9000)), Ok(()));
    assert_eq!(registry.insert(record(0x1000, 0x9010)), Err(HookError::AlreadyHooked));
    assert_eq!(registry.lookup(0x1000).ok().unwrap().trampoline().address(), 0x9000);
    assert!(!registry.has_trampoline(0x9010));
}

#[test]
fn remove_takes_the_record_out() {
    let mut registry = HookRegistry::new();
    assert_eq!(registry.insert(record(0x1000, 0x9000)), Ok(()));
    assert_eq!(registry.insert(record(0x2000, 0x9010)), Ok(()));
    assert_eq!(registry.insert(record(0x3000, 0x9020)), Ok(()));
    let removed = registry.remove(0x1000).ok().unwrap();
    assert_eq!(removed.target(), 0x1000);
    assert!(!registry.contains(0x1000));
    assert!(registry.contains(0x2000));
    assert!(registry.contains(0x3000));
    assert_eq!(registry.lookup(0x3000).ok().unwrap().trampoline().address(), 0x9020);
    assert_eq!(registry.remove(0x1000).err(), Some(HookError::NotFound));
    assert_eq!(registry.insert(record(0x1000, 0x9030)), Ok(()));
}

#[test]
fn has_trampoline_knows_the_owned_addresses() {
    let mut registry = HookRegistry::new();
    assert!(!registry.has_trampoline(0x9000));
    assert_eq!(registry.insert(record(0x1000, 0x9000)), Ok(()));
    assert!(registry.has_trampoline(0x9000));
    assert!(!registry.has_trampoline(0x1000));
    assert!(registry.remove(0x1000).is_ok());
    assert!(!registry.has_trampoline(0x9000));
}
