use vstd::prelude::*;
use crate::memory::VirtualAddress;

verus! {

/// The geometry of a framebuffer: where it is mapped, its size in pixels, the bytes per row
/// and the bits per pixel.
#[derive(Clone, Copy, Debug, PartialEq, Eq, Structural)]
pub struct FrameBufferScreenInfo {
    pub address: VirtualAddress,
    pub width: u64,
    pub height: u64,
    pub pitch: u64,
    pub bpp: u16,
}

} // verus!
