use health_sync::error::HookError;
use health_sync::memory::{AddressSpace, Protection};

const RX: Protection = Protection { read: true, write: false, execute: true };
const RW: Protection = Protection { read: true, write: true, execute: false };
const NONE: Protection = Protection { read: false, write: false, execute: false };

fn sample() -> AddressSpace {
    let mut space = AddressSpace::new();
    assert!(space.map(0x1000, vec![1, 2, 3, 4, 5, 6, 7, 8], RX, false));
    assert!(space.map(0x2000, vec![9; 16], RW, false));
    assert!(space.map(0x3000, vec![7; 4], RX, true));
    space
}

#[test]
fn new_space_has_no_regions() {
    let space = AddressSpace::new();
    assert_eq!(space.region_count(), 0);
    assert_eq!(space.locate(0, 1), None);
    assert!(space.is_free(0, 100));
}

#[test]
fn mapping_refuses_empty_overlapping_and_overlong_regions() {
    let mut space = sample();
    assert!(!space.map(0x5000, vec![], RX, false));
    assert!(!space.map(0x1004, vec![0; 2], RX, false));
    assert!(!space.map(0x0FFF, vec![0; 2], RX, false));
    assert!(!space.map(0xFFFF_FFFF, vec![0; 2], RX, false));
    assert_eq!(space.region_count(), 3);
    assert!(space.map(0xFFFF_FFFF, vec![0; 1], RX, false));
    assert!(space.map(0x1008, vec![0; 2], RX, false));
    assert_eq!(space.region_count(), 5);
}

#[test]
fn locate_finds_the_covering_region() {
    let space = sample();
    assert_eq!(space.locate(0x1000, 8), Some(0));
    assert_eq!(space.locate(0x1007, 1), Some(0));
    assert_eq!(space.locate(0x2004, 5), Some(1));
    assert_eq!(space.locate(0x3000, 4), Some(2));
    assert_eq!(space.locate(0x1004, 5), None);
    assert_eq!(space.locate(0x0FFF, 2), None);
    assert_eq!(space.locate(0x1000, 0), None);
    assert_eq!(space.locate(0x4000, 1), None);
}

#[test]
fn is_free_sees_every_overlap() {
    let space = sample();
    assert!(space.is_free(0x1008, 0x0FF8));
    assert!(!space.is_free(0x1007, 1));
    assert!(!space.is_free(0x0FF0, 0x11));
    assert!(space.is_free(0x0FF0, 0x10));
    assert!(!space.is_free(0, usize::MAX));
    assert!(space.is_free(0x4000, usize::MAX));
}

#[test]
fn read_returns_the_mapped_bytes() {
    let mut space = sample();
    assert_eq!(space.read(0x1002, 5), Some(vec![3, 4, 5, 6, 7]));
    assert_eq!(space.read(0x1000, 9), None);
    assert_eq!(space.read(0x5000, 1), None);
    assert!(space.map(0x6000, vec![1, 2], NONE, false));
    assert_eq!(space.read(0x6000, 2), None);
}

#[test]
fn write_needs_a_writable_region() {
    let mut space = sample();
    assert!(!space.write(0x1000, &vec![0xAA]));
    assert_eq!(space.read(0x1000, 1), Some(vec![1]));
    assert!(space.write(0x2003, &vec![0xAA, 0xBB]));
    assert_eq!(space.read(0x2002, 4), Some(vec![9, 0xAA, 0xBB, 9]));
    assert!(!space.write(0x200F, &vec![1, 2]));
    assert!(!space.write(0x5000, &vec![1]));
}

#[test]
fn protect_returns_the_previous_protection() {
    let mut space = sample();
    assert_eq!(space.protection(0x1000, 1), Some(RX));
    assert_eq!(space.protect(0x1000, 5, RW), Some(RX));
    assert_eq!(space.protection(0x1000, 1), Some(RW));
    assert_eq!(space.protection(0x2000, 1), Some(RW));
    assert_eq!(space.protect(0x3000, 4, RW), None);
    assert_eq!(space.protection(0x3000, 4), Some(RX));
    assert_eq!(space.protect(0x5000, 4, RW), None);
    assert_eq!(space.protection(0x5000, 4), None);
}

#[test]
fn patch_writes_under_a_lifted_protection_and_restores_it() {
    let mut space = sample();
    assert_eq!(space.patch(0x1001, &vec![0xE9, 0, 0, 0, 0]), Ok(()));
    assert_eq!(space.read(0x1000, 8), Some(vec![1, 0xE9, 0, 0, 0, 0, 7, 8]));
    assert_eq!(space.protection(0x1000, 8), Some(RX));
    assert_eq!(space.read(0x2000, 2), Some(vec![9, 9]));
}

#[test]
fn patch_is_refused_on_sealed_and_unmapped_memory() {
    let mut space = sample();
    assert_eq!(space.patch(0x3000, &vec![1, 2]), Err(HookError::MemoryProtectFailed));
    assert_eq!(space.read(0x3000, 4), Some(vec![7; 4]));
    assert_eq!(space.patch(0x5000, &vec![1, 2]), Err(HookError::BadAddress));
    assert_eq!(space.patch(0x1006, &vec![1, 2, 3]), Err(HookError::BadAddress));
    assert_eq!(space.read(0x1006, 2), Some(vec![7, 8]));
}
