use palloc::{Palloc, PallocError};

/// The address that the tests give to the first byte of their region.
const BASE: usize = 0x1000;

fn empty_allocator(heap: &mut [u8]) -> Palloc {
    let mut palloc = Palloc::empty();
    palloc.init(BASE, heap.len());
    palloc
}

fn memtest_allocation(heap: &mut [u8], start: usize, size: usize) -> bool {
    let memory = &mut heap[start - BASE..start - BASE + size];
    !memory
        .iter_mut()
        .enumerate()
        .map(|(index, addr)| (index as u8, addr))
        .any(|(index, addr)| {
            *addr = index;
            *addr != index
        })
}

#[test]
fn palloc_test_single_alloc() -> Result<(), PallocError> {
    let mut heap = [0u8; 50];
    let mut palloc = empty_allocator(&mut heap);

    let ptr = palloc.allocate(30)?;
    assert!(memtest_allocation(&mut heap, ptr, 30), "should pass memtest");

    Ok(())
}

#[test]
fn palloc_test_realloc() -> Result<(), PallocError> {
    let mut heap = [0u8; 100];
    let mut palloc = empty_allocator(&mut heap);

    let allocation = palloc.allocate(50)?;
    palloc.free(allocation)?;

    let new_allocation = palloc.allocate(20)?;
    assert_eq!(allocation, new_allocation);

    Ok(())
}

#[test]
fn palloc_test_merge() -> Result<(), PallocError> {
    let mut heap = [0; 100];
    let mut palloc = empty_allocator(&mut heap);

    let first = palloc.allocate(20)?;
    let second = palloc.allocate(20)?;

    palloc.free(first)?;
    palloc.free(second)?;

    let realloc = palloc.allocate(40)?;

    assert_eq!(first, realloc);
    Ok(())
}

#[test]
fn palloc_test_segment() -> Result<(), PallocError> {
    let mut heap = [0; 100];
    let mut palloc = empty_allocator(&mut heap);

    let alloc = palloc.allocate(50)?;
    palloc.free(alloc)?;

    let new_alloc = palloc.allocate(5)?;

    assert!(new_alloc < alloc + 50);
    Ok(())
}

#[test]
fn palloc_test_oom() {
    let mut heap = [0; 30];
    let mut palloc = empty_allocator(&mut heap);

    assert_eq!(palloc.allocate(15).unwrap_err(), PallocError::OutOfMemory);
}

#[test]
fn test_test_single_alloc() -> Result<(), PallocError> {
    let mut heap = vec![0u8; 150];
    let mut palloc = empty_allocator(&mut heap);

    let ptr = palloc.allocate(30)?;
    assert!(memtest_allocation(&mut heap, ptr, 30), "should pass memtest");

    Ok(())
}

#[test]
fn test_test_realloc() -> Result<(), PallocError> {
    let mut heap = vec![0u8; 150];
    let mut palloc = empty_allocator(&mut heap);

    let allocation = palloc.allocate(50)?;
    palloc.free(allocation)?;

    let new_allocation = palloc.allocate(20)?;
    assert_eq!(allocation, new_allocation);

    Ok(())
}

#[test]
fn test_test_merge() -> Result<(), PallocError> {
    let mut heap = vec![0u8; 150];
    let mut palloc = empty_allocator(&mut heap);

    let first = palloc.allocate(20)?;
    let second = palloc.allocate(20)?;

    palloc.free(first)?;
    palloc.free(second)?;

    let realloc = palloc.allocate(40)?;

    assert_eq!(first, realloc);
    Ok(())
}

#[test]
fn test_test_segment() -> Result<(), PallocError> {
    let mut heap = vec![0u8; 150];
    let mut palloc = empty_allocator(&mut heap);

    let alloc = palloc.allocate(50)?;
    palloc.free(alloc)?;

    let new_alloc = palloc.allocate(5)?;

    assert!(new_alloc < alloc + 50);
    Ok(())
}

#[test]
fn test_test_oom() {
    let mut heap = vec![0u8; 150];
    let mut palloc = empty_allocator(&mut heap);

    assert_eq!(palloc.allocate(135).unwrap_err(), PallocError::OutOfMemory);
}

#[test]
fn allocation_deallocation() {
    let mut heap = [0; 50];
    let mut palloc = empty_allocator(&mut heap);

    let allocation = palloc.allocate(20);
    assert!(allocation.is_ok());

    palloc.free(allocation.unwrap()).unwrap();
}
