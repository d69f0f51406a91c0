//! Verified core of a small x86_64 hobby kernel: bit utilities, physical frame and
//! virtual page bookkeeping, page-table entries and walks, the kernel virtual address
//! space allocator, and the text-mode / framebuffer text buffers.
use vstd::prelude::*;

pub mod utils;
pub mod vga_buffer;
pub mod debugger;
pub mod drivers;
pub mod framebuffer;
pub mod fs;
pub mod graphics;
pub mod interrupts;
pub mod memory;
