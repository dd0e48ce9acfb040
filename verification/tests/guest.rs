use wasm_plugin_framework::error::AbiError;
use wasm_plugin_framework::guest::{allocate_buffer, free_buffer, from_abi, into_abi, GuestMemory, Region};

#[test]
fn new_memory_is_zeroed_and_empty() {
    let memory = GuestMemory::new(16);
    assert_eq!(memory.size(), 16);
    assert_eq!(memory.data(), &[0u8; 16][..]);
    assert_eq!(memory.live_count(), 0);
    assert_eq!(GuestMemory::new(0).size(), 0);
}

#[test]
fn allocate_reserves_exactly_the_size_asked_for() {
    let mut memory = GuestMemory::new(32);
    assert_eq!(allocate_buffer(&mut memory, 10), Some(0));
    assert_eq!(allocate_buffer(&mut memory, 4), Some(10));
    assert_eq!(allocate_buffer(&mut memory, 18), Some(14));
    assert_eq!(allocate_buffer(&mut memory, 1), None);
    assert!(memory.is_allocated(0, 10));
    assert!(memory.is_allocated(10, 4));
    assert!(!memory.is_allocated(10, 8));
    assert!(!memory.is_allocated(0, 14));
    assert_eq!(memory.live_count(), 3);
}

#[test]
fn allocate_within_budget_then_free_never_fails() {
    for n in [0u32, 1, 7, 63, 64] {
        let mut memory = GuestMemory::new(64);
        let ptr = allocate_buffer(&mut memory, n).unwrap();
        assert!(memory.is_allocated(ptr, n));
        free_buffer(&mut memory, ptr, n);
        assert_eq!(memory.live_count(), 0);
        assert!(!memory.is_allocated(ptr, n));
    }
}

#[test]
fn allocate_beyond_budget_reserves_nothing() {
    let mut memory = GuestMemory::new(8);
    assert_eq!(allocate_buffer(&mut memory, 9), None);
    assert_eq!(allocate_buffer(&mut memory, u32::MAX), None);
    assert_eq!(memory.live_count(), 0);
    assert_eq!(allocate_buffer(&mut memory, 8), Some(0));
    assert_eq!(allocate_buffer(&mut memory, 0), Some(8));
}

#[test]
fn freed_top_region_is_handed_out_again() {
    let mut memory = GuestMemory::new(32);
    let first = allocate_buffer(&mut memory, 8).unwrap();
    let second = allocate_buffer(&mut memory, 8).unwrap();
    free_buffer(&mut memory, second, 8);
    assert_eq!(allocate_buffer(&mut memory, 12), Some(second));
    free_buffer(&mut memory, first, 8);
    // the lower region is free, but the one above it is not
    assert_eq!(allocate_buffer(&mut memory, 4), Some(20));
}

#[test]
fn free_releases_one_of_two_equal_regions() {
    let mut memory = GuestMemory::new(8);
    assert_eq!(allocate_buffer(&mut memory, 0), Some(0));
    assert_eq!(allocate_buffer(&mut memory, 0), Some(0));
    assert_eq!(memory.live_count(), 2);
    free_buffer(&mut memory, 0, 0);
    assert_eq!(memory.live_count(), 1);
    assert!(memory.is_allocated(0, 0));
}

#[test]
fn region_fields_are_plain() {
    let region = Region { offset: 3, size: 4 };
    assert_eq!(region, Region { offset: 3, size: 4 });
    assert_ne!(region, Region { offset: 3, size: 5 });
}

#[test]
fn guest_into_abi_writes_length_then_payload() {
    let mut memory = GuestMemory::new(32);
    assert_eq!(into_abi(&mut memory, &[0xaa, 0xbb]), Ok(0));
    assert_eq!(&memory.data()[..6], &[2, 0, 0, 0, 0xaa, 0xbb]);
    assert!(memory.is_allocated(0, 6));
    assert_eq!(into_abi(&mut memory, &[]), Ok(6));
    assert_eq!(&memory.data()[6..10], &[0, 0, 0, 0]);
    assert!(memory.is_allocated(6, 4));
}

#[test]
fn guest_into_abi_fails_when_memory_is_full() {
    let mut memory = GuestMemory::new(8);
    assert_eq!(into_abi(&mut memory, &[1, 2, 3, 4, 5]), Err(AbiError::OutOfMemory));
    assert_eq!(memory.live_count(), 0);
    assert_eq!(memory.data(), &[0u8; 8][..]);
    assert_eq!(into_abi(&mut memory, &[1, 2, 3, 4]), Ok(0));
}

#[test]
fn guest_from_abi_takes_the_payload_and_frees_the_buffer() {
    let mut memory = GuestMemory::new(32);
    let ptr = into_abi(&mut memory, &[5, 6, 7]).unwrap();
    assert_eq!(from_abi(&mut memory, ptr), Ok(vec![5, 6, 7]));
    assert_eq!(memory.live_count(), 0);
    // the buffer is gone: a second take fails and changes nothing
    assert_eq!(from_abi(&mut memory, ptr), Err(AbiError::OutOfBounds));
}

#[test]
fn guest_from_abi_rejects_pointers_to_no_buffer() {
    let mut memory = GuestMemory::new(16);
    assert_eq!(from_abi(&mut memory, 0), Err(AbiError::OutOfBounds));
    assert_eq!(from_abi(&mut memory, 14), Err(AbiError::OutOfBounds));
    assert_eq!(from_abi(&mut memory, 400), Err(AbiError::OutOfBounds));
    let ptr = allocate_buffer(&mut memory, 8).unwrap();
    // reserved, but with a size that is not that of the buffer written there
    memory.data_mut()[..5].copy_from_slice(&[1, 0, 0, 0, 9]);
    assert_eq!(from_abi(&mut memory, ptr), Err(AbiError::OutOfBounds));
    assert!(memory.is_allocated(ptr, 8));
}

#[test]
fn reused_buffer_is_freshly_written() {
    let mut memory = GuestMemory::new(64);
    let result = into_abi(&mut memory, b"first result").unwrap();
    assert_eq!(from_abi(&mut memory, result), Ok(b"first result".to_vec()));
    // the next buffer starts where the freed one did
    let argument = into_abi(&mut memory, b"arg").unwrap();
    assert_eq!(argument, result);
    assert_eq!(&memory.data()[..7], &[3, 0, 0, 0, b'a', b'r', b'g']);
    assert_eq!(from_abi(&mut memory, argument), Ok(b"arg".to_vec()));
}

#[test]
fn write_copies_within_memory_only() {
    let mut memory = GuestMemory::new(8);
    assert!(memory.write(2, &[1, 2, 3]));
    assert_eq!(memory.data(), &[0, 0, 1, 2, 3, 0, 0, 0][..]);
    assert!(memory.write(8, &[]));
    assert!(!memory.write(6, &[1, 2, 3]));
    assert!(!memory.write(9, &[]));
    assert_eq!(memory.data(), &[0, 0, 1, 2, 3, 0, 0, 0][..]);
}
