use std::mem::{align_of, size_of};
use wild_screen_alloc::constants::PAGE_SIZE;
use wild_screen_alloc::SlabAllocator;

const HEAP_START: usize = 0x8020_0000;
const HEAP_SIZE: usize = 16 * PAGE_SIZE;

#[test]
fn create_allocator() {
    let _ = SlabAllocator::new(HEAP_START, HEAP_SIZE);
}

#[test]
fn alloc_and_free_test() {
    let size = size_of::<usize>() * 2;
    let align = align_of::<usize>();

    let mut allocator = SlabAllocator::new(HEAP_START, HEAP_SIZE);
    let addr = allocator.allocate(size, align);
    assert!(addr.is_some());

    allocator.deallocate(addr.unwrap(), size, align);
}

#[test]
fn alloc_4096_bytes() {
    let size = 4096;
    let align = align_of::<usize>();

    let mut allocator = SlabAllocator::new(HEAP_START, HEAP_SIZE);
    let addr = allocator.allocate(size, align);
    assert!(addr.is_some());

    allocator.deallocate(addr.unwrap(), size, align);
}

#[test]
fn alloc_4104_bytes() {
    let size = 4104;
    let align = align_of::<usize>();

    let mut allocator = SlabAllocator::new(HEAP_START, HEAP_SIZE);
    let addr = allocator.allocate(size, align);
    assert!(addr.is_some());

    allocator.deallocate(addr.unwrap(), size, align);
}

#[test]
fn alloc_8096_bytes() {
    let size = 8096;
    let align = align_of::<usize>();

    let mut allocator = SlabAllocator::new(HEAP_START, HEAP_SIZE);
    let addr = allocator.allocate(size, align);
    assert!(addr.is_some());

    allocator.deallocate(addr.unwrap(), size, align);
}
