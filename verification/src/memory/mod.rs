use vstd::prelude::*;

pub mod heap_allocator;
pub mod memory_manager;
pub mod memory_map;
pub mod physical_memory;
pub mod virtual_memory;

verus! {

/// A physical memory address (the kernel runs in 64-bit long mode).
pub type PhysicalAddress = u64;

/// A virtual memory address (the kernel runs in 64-bit long mode).
pub type VirtualAddress = u64;

/// The size in bytes of a page and of a frame.
pub const PAGE_SIZE: usize = 4096;

} // verus!
