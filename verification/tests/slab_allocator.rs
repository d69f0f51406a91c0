use std::mem::MaybeUninit;

use toast::memory::heap_allocator::{list_index, SlabAllocator};

fn slab_with_heap(bytes: usize) -> (SlabAllocator, usize) {
    let memory: &'static mut [MaybeUninit<u8>] =
        Box::leak(vec![MaybeUninit::<u8>::uninit(); bytes].into_boxed_slice());
    let mut slab = SlabAllocator::new();
    slab.fallback_allocator.init_from_slice(memory);
    let start = slab.fallback_allocator.bottom();
    (slab, start)
}

#[test]
fn slab_allocator_reuses_freed_blocks_last_first() {
    let mut slab = SlabAllocator::new();
    // The fallback heap has no memory yet, so nothing can be served.
    assert_eq!(slab.allocate(16, 8), None);
    assert_eq!(slab.allocate(12, 4), None);
    assert_eq!(slab.allocated_bytes(), 28);
    assert!(slab.deallocate(0x1000, 16, 8));
    assert!(slab.deallocate(0x2000, 12, 4));
    assert_eq!(slab.allocated_bytes(), 0);
    assert_eq!(slab.allocate(10, 4), Some(0x2000));
    assert_eq!(slab.allocate(16, 16), Some(0x1000));
    assert_eq!(slab.allocate(16, 16), None);
    assert_eq!(slab.allocated_bytes(), 42);
}

#[test]
fn slab_allocator_keeps_lists_apart_by_block_size() {
    let mut slab = SlabAllocator::new();
    assert_eq!(slab.allocate(8, 8), None);
    assert_eq!(slab.allocate(64, 8), None);
    assert!(slab.deallocate(0x3000, 64, 8));
    assert!(slab.deallocate(0x4000, 8, 8));
    assert_eq!(slab.allocate(40, 8), Some(0x3000));
    assert_eq!(slab.allocate(1, 1), Some(0x4000));
}

#[test]
fn slab_allocator_leaves_large_blocks_to_the_fallback_heap() {
    let mut slab = SlabAllocator::new();
    assert_eq!(slab.allocate(4096, 8), None);
    assert!(!slab.deallocate(0x8000, 4096, 8));
    assert_eq!(slab.allocated_bytes(), 0);
    assert_eq!(slab.allocate(8, 4096), None);
}

#[test]
fn slab_allocator_asks_the_fallback_heap_for_whole_blocks() {
    assert_eq!(SlabAllocator::fallback_request(24, 1), (32, 32));
    assert_eq!(SlabAllocator::fallback_request(1, 1), (8, 8));
    assert_eq!(SlabAllocator::fallback_request(2048, 2048), (2048, 2048));
    assert_eq!(SlabAllocator::fallback_request(3000, 8), (3000, 8));
    assert_eq!(list_index(24, 1), Some(2));
}

#[test]
fn slab_allocator_serves_from_an_initialized_fallback_heap() {
    let (mut slab, start) = slab_with_heap(8192);
    let block = slab.allocate(100, 8).expect("the heap has room");
    assert_eq!(block % 128, 0);
    assert!(block as usize >= start && (block as usize) + 128 <= start + 8192);
    let large = slab.allocate(3000, 16).expect("the heap has room");
    assert_eq!(large % 16, 0);
    assert!(large as usize >= start && (large as usize) + 3000 <= start + 8192);
    assert_ne!(block, large);
    assert_eq!(slab.allocated_bytes(), 3100);
    let direct = slab.fallback_alloc(64, 64).expect("the heap has room");
    assert_eq!(direct % 64, 0);
    assert_eq!(slab.fallback_alloc(1 << 20, 8), None);
}

#[test]
fn slab_allocator_checked_requests_stay_within_the_heap() {
    let (mut slab, start) = slab_with_heap(8192);
    let block = slab.allocate_checked(100, 8).expect("the heap has room");
    assert_eq!(block % 128, 0);
    assert!(block as usize >= start && (block as usize) + 128 <= start + 8192);
    let chunk = slab.fallback_alloc_checked(256, 4096).expect("the heap has room");
    assert_eq!(chunk % 4096, 0);
    assert!(chunk as usize >= start && (chunk as usize) + 256 <= start + 8192);
    assert_eq!(slab.allocated_bytes(), 100);
}
