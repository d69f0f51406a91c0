use vstd::prelude::*;
use crate::memory::{PAGE_SIZE, PhysicalAddress};

pub mod buddy_allocator_bitmap;
pub mod linear_frame_allocator;
pub mod static_buddy_allocator;
pub mod static_linear_allocator;

verus! {

/// A physical frame, identified by its number: the frame starting at `number * PAGE_SIZE`.
#[derive(Debug, PartialEq, Eq, Structural, PartialOrd, Ord, Copy, Clone)]
pub struct Frame {
    pub number: u64,
}

impl Frame {
    /// Returns the frame containing the address passed as argument
    pub fn containing_address(address: PhysicalAddress) -> (r: Frame)
        ensures
            r.number == address / (PAGE_SIZE as u64),
    {
        Frame { number: address / (PAGE_SIZE as u64) }
    }

    pub fn start_address(&self) -> (r: PhysicalAddress)
        requires
            self.number * PAGE_SIZE <= u64::MAX,
        ensures
            r == self.number * PAGE_SIZE,
    {
        self.number * (PAGE_SIZE as u64)
    }

    pub fn range_inclusive(start: Frame, end: Frame) -> (r: FrameIter)
        ensures
            r.next_number() == start.number,
            r.last_number() == end.number,
    {
        FrameIter { start, end }
    }
}

/// The frames from `start` to `end`, both included, in increasing order.
pub struct FrameIter {
    start: Frame,
    end: Frame,
}

impl FrameIter {
    /// The number of the next frame handed out.
    pub closed spec fn next_number(&self) -> u64 {
        self.start.number
    }

    /// The number of the last frame handed out.
    pub closed spec fn last_number(&self) -> u64 {
        self.end.number
    }

    /// Hands out the next frame of the range, or `None` once the range is exhausted.
    pub fn next(&mut self) -> (r: Option<Frame>)
        requires
            old(self).next_number() <= old(self).last_number() ==> old(self).next_number()
                < u64::MAX,
        ensures
            final(self).last_number() == old(self).last_number(),
            old(self).next_number() <= old(self).last_number() ==> {
                &&& r == Some(Frame { number: old(self).next_number() })
                &&& final(self).next_number() == old(self).next_number() + 1
            },
            old(self).next_number() > old(self).last_number() ==> {
                &&& r is None
                &&& final(self).next_number() == old(self).next_number()
            },
    {
        if self.start.number <= self.end.number {
            let frame = self.start;
            self.start.number = self.start.number + 1;
            Some(frame)
        } else {
            None
        }
    }
}

/// `linked_list_allocator::align_up`: the smallest multiple of `align` that is not below
/// `addr`. The crate asks for a power of two as `align` and panics otherwise; it is called
/// here with the page size only.
#[verifier::external_body]
pub(crate) fn align_up(addr: usize, align: usize) -> (r: usize)
    requires
        align == PAGE_SIZE,
        addr + align - 1 <= usize::MAX,
    ensures
        r % align == 0,
        addr <= r < addr + align,
{
    linked_list_allocator::align_up(addr, align)
}

/// A source of physical frames. What each call answers is a function of the allocator's
/// state, which the allocator names.
pub trait FrameAllocator {
    /// The allocator's internal invariant.
    spec fn wf_allocator(&self) -> bool;

    /// What the call of `allocate_frame` that follows `k` others gives from this state, when
    /// nothing but frames is asked for in between; `frame_after(0)` is what the next call gives.
    spec fn frame_after(&self, k: u64) -> Result<Frame, &'static str>;

    /// What taking back `frame` gives in this state.
    spec fn frame_release(&self, frame: Frame) -> Result<(), &'static str>;

    fn allocate_frame(&mut self) -> (r: Result<Frame, &'static str>)
        requires
            old(self).wf_allocator(),
        ensures
            final(self).wf_allocator(),
            r == old(self).frame_after(0),
            forall|k: u64| k < u64::MAX ==> #[trigger] final(self).frame_after(k) == old(self).frame_after((k + 1) as u64),
    ;

    fn deallocate_frame(&mut self, frame: Frame) -> (r: Result<(), &'static str>)
        requires
            old(self).wf_allocator(),
        ensures
            final(self).wf_allocator(),
            r == old(self).frame_release(frame),
    ;
}

} // verus!
