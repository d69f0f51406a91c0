use vstd::prelude::*;
use crate::memory::{PAGE_SIZE, PhysicalAddress};
use crate::memory::memory_map::{MemoryMapEntry, USABLE};
use super::{Frame, FrameAllocator};

verus! {

/// The amount of simultaneous frames that can be allocated with this allocator. A hard limit is needed because
/// this allocator is used before the heap is initialized
pub const ALLOCATION_LIMIT: usize = 300;

#[derive(Copy, Clone, Debug, PartialEq, Eq, Structural)]
pub struct FrameStatus {
    pub frame_address: Option<PhysicalAddress>,
    pub used: bool,
}

impl FrameStatus {
    pub fn default() -> (r: Self)
        ensures
            r == (FrameStatus { frame_address: None, used: false }),
    {
        Self { frame_address: None, used: false }
    }
}

/// The number of the frame holding the last byte of `e`.
pub open spec fn last_frame(e: MemoryMapEntry) -> u64 {
    (e.last_byte() / PAGE_SIZE as u64) as u64
}

/// Entry `e` is usable, not empty, and ends at or after frame `next`.
pub open spec fn area_candidate(e: MemoryMapEntry, next: u64) -> bool {
    e.entry_type == USABLE && e.length >= 1 && last_frame(e) >= next
}

/// Entry `i` of `map` is the area chosen when the next free frame is `next`: the usable
/// area with the lowest base among those that end at or after `next`, the first of them.
pub open spec fn is_chosen_area(map: Seq<MemoryMapEntry>, next: u64, i: int) -> bool {
    &&& 0 <= i < map.len()
    &&& area_candidate(map[i], next)
    &&& forall|j: int| 0 <= j < map.len() && #[trigger] area_candidate(map[j], next) ==> map[i].base <= map[j].base
    &&& forall|j: int| 0 <= j < i && #[trigger] area_candidate(map[j], next) ==> map[i].base < map[j].base
}

/// No area is usable from frame `next` on.
pub open spec fn no_area_left(map: Seq<MemoryMapEntry>, next: u64) -> bool {
    forall|j: int| 0 <= j < map.len() ==> !#[trigger] area_candidate(map[j], next)
}

/// Index `i` holds the first status among the first `count` that is not in use.
pub open spec fn is_first_free_status(statuses: Seq<FrameStatus>, count: int, i: int) -> bool {
    &&& 0 <= i < count
    &&& !statuses[i].used
    &&& forall|j: int| 0 <= j < i ==> #[trigger] statuses[j].used
}

/// Allocates frames linearly. This allocator is incredibly inefficient and should only be used before the heap is available
/// in order to track allocated and free frames.
pub struct LinearFrameAllocator {
    next_free_frame: Frame,
    current_area: Option<MemoryMapEntry>,
    memory_map: Vec<MemoryMapEntry>,
    allocated_frames: Vec<FrameStatus>,
    allocated_frames_count: usize,
}

impl LinearFrameAllocator {
    pub closed spec fn next_frame(&self) -> u64 {
        self.next_free_frame.number
    }

    pub closed spec fn area(&self) -> Option<MemoryMapEntry> {
        self.current_area
    }

    pub closed spec fn map(&self) -> Seq<MemoryMapEntry> {
        self.memory_map@
    }

    /// The status of each of the `ALLOCATION_LIMIT` slots.
    pub closed spec fn statuses(&self) -> Seq<FrameStatus> {
        self.allocated_frames@
    }

    /// The number of slots filled so far.
    pub closed spec fn count(&self) -> nat {
        self.allocated_frames_count as nat
    }

    pub closed spec fn wf(&self) -> bool {
        &&& self.allocated_frames@.len() == ALLOCATION_LIMIT
        &&& self.allocated_frames_count <= ALLOCATION_LIMIT
        &&& forall|i: int|
            0 <= i < self.allocated_frames_count ==> (#[trigger] self.allocated_frames@[i]).frame_address is Some
        &&& forall|i: int|
            0 <= i < self.allocated_frames_count ==> {
                let a = (#[trigger] self.allocated_frames@[i]).frame_address->0;
                a % (PAGE_SIZE as u64) == 0 && a / (PAGE_SIZE as u64) < self.next_free_frame.number
            }
        &&& forall|i: int, j: int|
            0 <= i < j < self.allocated_frames_count ==> (#[trigger] self.allocated_frames@[i]).frame_address
                != (#[trigger] self.allocated_frames@[j]).frame_address
        &&& usable_entries_wf(self.memory_map@)
        &&& self.current_area matches Some(a) ==> a.entry_type == USABLE && a.has_last_byte()
    }

    pub fn new(memory_map: Vec<MemoryMapEntry>) -> (r: LinearFrameAllocator)
        requires
            usable_entries_wf(memory_map@),
        ensures
            r.wf(),
            r.map() == memory_map@,
            r.count() == 0,
            match r.area() {
                Some(a) => exists|i: int| is_chosen_area(memory_map@, 0, i) && memory_map@[i] == a
                    && r.next_frame() == if a.base / PAGE_SIZE as u64 > 0 { a.base / PAGE_SIZE as u64 } else { 0 },
                None => no_area_left(memory_map@, 0) && r.next_frame() == 0,
            },
    {
        let mut allocated_frames: Vec<FrameStatus> = Vec::new();
        while allocated_frames.len() < ALLOCATION_LIMIT
            invariant
                allocated_frames@.len() <= ALLOCATION_LIMIT,
                forall|i: int| 0 <= i < allocated_frames@.len() ==> #[trigger] allocated_frames@[i]
                    == (FrameStatus { frame_address: None, used: false }),
            decreases ALLOCATION_LIMIT - allocated_frames@.len(),
        {
            allocated_frames.push(FrameStatus::default());
        }
        let mut allocator = LinearFrameAllocator {
            next_free_frame: Frame::containing_address(0),
            current_area: None,
            memory_map,
            allocated_frames,
            allocated_frames_count: 0,
        };
        allocator.choose_next_area();
        allocator
    }

    /// Moves to the usable area with the lowest base among those that end at or after the
    /// next free frame, and skips ahead to its first frame.
    fn choose_next_area(&mut self)
        requires
            old(self).wf(),
        ensures
            final(self).wf(),
            final(self).map() == old(self).map(),
            final(self).statuses() == old(self).statuses(),
            final(self).count() == old(self).count(),
            match final(self).area() {
                Some(a) => exists|i: int| is_chosen_area(old(self).map(), old(self).next_frame(), i)
                    && old(self).map()[i] == a && final(self).next_frame() == if old(self).next_frame()
                    < a.base / PAGE_SIZE as u64 {
                    a.base / PAGE_SIZE as u64
                } else {
                    old(self).next_frame()
                },
                None => no_area_left(old(self).map(), old(self).next_frame()) && final(self).next_frame()
                    == old(self).next_frame(),
            },
            final(self).area() matches Some(a) ==> final(self).next_frame() <= last_frame(a),
    {
        let next = self.next_free_frame.number;
        let mut chosen: Option<usize> = None;
        let mut i: usize = 0;
        while i < self.memory_map.len()
            invariant
                i <= self.memory_map@.len(),
                usable_entries_wf(self.memory_map@),
                next == self.next_free_frame.number,
                match chosen {
                    Some(c) => c < i && area_candidate(self.memory_map@[c as int], next) && (forall|j: int|
                        0 <= j < i && #[trigger] area_candidate(self.memory_map@[j], next) ==> self.memory_map@[c as int].base
                            <= self.memory_map@[j].base) && (forall|j: int|
                        0 <= j < c && #[trigger] area_candidate(self.memory_map@[j], next) ==> self.memory_map@[c as int].base
                            < self.memory_map@[j].base),
                    None => forall|j: int| 0 <= j < i ==> !#[trigger] area_candidate(self.memory_map@[j], next),
                },
            decreases self.memory_map@.len() - i,
        {
            let area = self.memory_map[i];
            if area.entry_type == USABLE && area.length > 0 {
                let end_address = area.base + area.length - 1;
                if Frame::containing_address(end_address).number >= next {
                    match chosen {
                        Some(c) => {
                            if area.base < self.memory_map[c].base {
                                chosen = Some(i);
                            }
                        },
                        None => {
                            chosen = Some(i);
                        },
                    }
                }
            }
            i = i + 1;
        }
        self.current_area = match chosen {
            Some(c) => Some(self.memory_map[c]),
            None => None,
        };
        // Set the new next free frame
        if let Some(area) = self.current_area {
            let area_start_frame = Frame::containing_address(area.base);
            if self.next_free_frame.number < area_start_frame.number {
                self.next_free_frame = area_start_frame;
            }
            proof {
                assert(is_chosen_area(self.memory_map@, next, chosen->0 as int));
                assert(area.base / 4096 <= area.last_byte() / 4096) by (nonlinear_arith)
                    requires
                        area.base <= area.last_byte(),
                ;
            }
        }
    }

    /// The addresses of the frames in use.
    pub fn allocated_frames(&self) -> (r: Vec<PhysicalAddress>)
        requires
            self.wf(),
        ensures
            r@ == used_addresses(self.statuses()),
            forall|a: PhysicalAddress|
                #[trigger] r@.contains(a) <==> exists|k: int|
                    0 <= k < self.statuses().len() && #[trigger] self.statuses()[k].used
                        && self.statuses()[k].frame_address == Some(a),
    {
        proof {
            lemma_used_addresses_members(self.statuses());
        }
        let mut r: Vec<PhysicalAddress> = Vec::new();
        let mut i: usize = 0;
        while i < self.allocated_frames.len()
            invariant
                i <= self.allocated_frames@.len(),
                r@ == used_addresses(self.allocated_frames@.take(i as int)),
            decreases self.allocated_frames@.len() - i,
        {
            let status = self.allocated_frames[i];
            proof {
                assert(self.allocated_frames@.take(i + 1).drop_last() == self.allocated_frames@.take(i as int));
            }
            if status.used && status.frame_address.is_some() {
                r.push(status.frame_address.unwrap());
            }
            i = i + 1;
        }
        proof {
            assert(self.allocated_frames@.take(i as int) == self.allocated_frames@);
        }
        r
    }
}

impl LinearFrameAllocator {
    /// Hands out the next frame of the current area, which must not be exhausted.
    fn allocate_in_current_area(&mut self) -> (r: Result<Frame, &'static str>)
        requires
            old(self).wf(),
            old(self).area() matches Some(a) ==> old(self).next_frame() <= last_frame(a),
        ensures
            final(self).wf(),
            final(self).map() == old(self).map(),
            final(self).area() == old(self).area(),
            hands_out(*old(self), *final(self), old(self).next_frame(), r),
            r is Err ==> final(self).next_frame() == old(self).next_frame(),
    {
        proof {
            reveal_strlit("linear frame allocator could not allocate requested frame");
            reveal_strlit("linear frame allocator cannot track more frames");
        }
        if let Some(area) = self.current_area {
            let frame = Frame { number: self.next_free_frame.number };
            if self.allocated_frames_count >= ALLOCATION_LIMIT {
                return Err("linear frame allocator cannot track more frames");
            }
            proof {
                assert(frame.number * 4096 <= u64::MAX) by (nonlinear_arith)
                    requires
                        frame.number <= area.last_byte() / 4096,
                ;
            }
            self.next_free_frame.number = self.next_free_frame.number + 1;
            self.allocated_frames.set(
                self.allocated_frames_count,
                FrameStatus { frame_address: Some(frame.start_address()), used: true },
            );
            self.allocated_frames_count = self.allocated_frames_count + 1;
            Ok(frame)
        } else {
            Err("linear frame allocator could not allocate requested frame")
        }
    }
}

impl LinearFrameAllocator {
    /// Hands out a frame that was given back, if any; else the next frame of the current
    /// area, moving to the next area once the current one is exhausted.
    fn take_frame(&mut self) -> (r: Result<Frame, &'static str>)
        requires
            old(self).wf(),
        ensures
            final(self).wf(),
            allocation(*old(self), *final(self), r),
    {
        // Look for a previously allocated frame that has been freed
        let mut frame_number: usize = 0;
        while frame_number < self.allocated_frames_count
            invariant
                self.wf(),
                *self == *old(self),
                frame_number <= self.allocated_frames_count,
                forall|j: int| 0 <= j < frame_number ==> #[trigger] self.allocated_frames@[j].used,
            decreases self.allocated_frames_count - frame_number,
        {
            if !self.allocated_frames[frame_number].used {
                let address = self.allocated_frames[frame_number].frame_address.unwrap();
                self.allocated_frames.set(frame_number, FrameStatus { frame_address: Some(address), used: true });
                proof {
                    assert(is_first_free_status(old(self).statuses(), old(self).count() as int, frame_number as int));
                }
                return Ok(Frame::containing_address(address));
            }
            frame_number = frame_number + 1;
        }
        if let Some(area) = self.current_area {
            let frame = Frame { number: self.next_free_frame.number };
            let current_area_last_frame = Frame::containing_address(area.base + area.length - 1);
            // Move to the next area if all frames in the current area are used
            if frame.number > current_area_last_frame.number {
                self.choose_next_area();
            }
        }
        self.allocate_in_current_area()
    }

}

impl FrameAllocator for LinearFrameAllocator {
    open spec fn wf_allocator(&self) -> bool {
        self.wf()
    }

    open spec fn frame_after(&self, k: u64) -> Result<Frame, &'static str> {
        state_result_after(view_of(*self), k as nat)
    }

    open spec fn frame_release(&self, frame: Frame) -> Result<(), &'static str> {
        release_result(*self, frame)
    }

    /// Hands out a frame that was given back, if any; else the next frame of the current
    /// area, moving to the next area once the current one is exhausted.
    fn allocate_frame(&mut self) -> (r: Result<Frame, &'static str>)
        ensures
            allocation(*old(self), *final(self), r),
            r matches Ok(f) ==> !in_use(*old(self), f.number) && in_use(*final(self), f.number),
    {
        let r = self.take_frame();
        proof {
            lemma_allocation_result(*old(self), *self, r);
            lemma_allocation_fresh(*old(self), *self, r);
            lemma_allocation_step(*old(self), *self, r);
            assert forall|k: u64| k < u64::MAX implies #[trigger] self.frame_after(k) == old(self).frame_after(
                (k + 1) as u64,
            ) by {
                assert(state_result_after(view_of(*old(self)), (k + 1) as nat) == state_result_after(
                    state_step(view_of(*old(self))),
                    k as nat,
                ));
            }
        }
        r
    }

    /// Marks the slot that records `frame` as given back.
    fn deallocate_frame(&mut self, frame: Frame) -> (r: Result<(), &'static str>)
        ensures
            deallocation(*old(self), *final(self), frame, r),
            r is Ok ==> in_use(*old(self), frame.number) && !in_use(*final(self), frame.number),
    {
        if frame.number > u64::MAX / (PAGE_SIZE as u64) {
            proof {
                assert forall|k: int| 0 <= k < old(self).count() implies !#[trigger] records(old(self).statuses()[k], frame.number) by {
                    if records(old(self).statuses()[k], frame.number) {
                        assert(frame.number * PAGE_SIZE > u64::MAX) by (nonlinear_arith)
                            requires
                                frame.number > u64::MAX / 4096,
                        ;
                    }
                }
            }
            return Err("error deallocating frame");
        }
        let address = frame.start_address();
        let mut slot: usize = 0;
        while slot < self.allocated_frames_count
            invariant
                self.wf(),
                *self == *old(self),
                address == frame.number * PAGE_SIZE,
                slot <= self.allocated_frames_count,
                forall|j: int| 0 <= j < slot ==> !#[trigger] records(old(self).statuses()[j], frame.number),
            decreases self.allocated_frames_count - slot,
        {
            let status = self.allocated_frames[slot];
            let recorded = match status.frame_address {
                Some(a) => a == address,
                None => false,
            };
            if recorded {
                proof {
                    assert(is_first_record(old(self).statuses(), old(self).count() as int, frame.number, slot as int));
                }
                if status.used {
                    self.allocated_frames.set(slot, FrameStatus { frame_address: status.frame_address, used: false });
                    proof {
                        assert(deallocation(*old(self), *self, frame, Ok(())));
                        lemma_release_frees(*old(self), *self, frame, Ok(()));
                    }
                    return Ok(());
                } else {
                    return Err("cannot deallocate a non-allocated frame");
                }
            }
            slot = slot + 1;
        }
        Err("error deallocating frame")
    }
}

/// The first frame to hand out from area `a` when the next free frame is `next`.
pub open spec fn start_in_area(next: u64, a: MemoryMapEntry) -> u64 {
    if next < a.base / PAGE_SIZE as u64 {
        (a.base / PAGE_SIZE as u64) as u64
    } else {
        next
    }
}

/// Status `s` records the frame numbered `n`.
pub open spec fn records(s: FrameStatus, n: u64) -> bool {
    s.frame_address matches Some(a) && a == n * PAGE_SIZE
}

/// Index `k` holds the first status among the first `count` that records frame `n`.
pub open spec fn is_first_record(statuses: Seq<FrameStatus>, count: int, n: u64, k: int) -> bool {
    &&& 0 <= k < count
    &&& records(statuses[k], n)
    &&& forall|j: int| 0 <= j < k ==> !#[trigger] records(statuses[j], n)
}

/// Frame `n` is handed out and not given back: a slot records it in use.
pub open spec fn in_use(a: LinearFrameAllocator, n: u64) -> bool {
    exists|i: int| 0 <= i < a.count() && a.statuses()[i].used && #[trigger] records(a.statuses()[i], n)
}

/// What taking back `frame` gives: the first slot that records it must have it in use.
pub open spec fn release_result(pre: LinearFrameAllocator, frame: Frame) -> Result<(), &'static str> {
    if exists|k: int| is_first_record(pre.statuses(), pre.count() as int, frame.number, k) {
        let k = choose|k: int| is_first_record(pre.statuses(), pre.count() as int, frame.number, k);
        if pre.statuses()[k].used {
            Ok(())
        } else {
            Err("cannot deallocate a non-allocated frame")
        }
    } else {
        Err("error deallocating frame")
    }
}

/// The outcome of handing out frame `start` of the current area of `post`: the frame is
/// recorded in the next slot; with no area left, or no slot left, nothing changes.
pub open spec fn hands_out(
    pre: LinearFrameAllocator,
    post: LinearFrameAllocator,
    start: u64,
    r: Result<Frame, &'static str>,
) -> bool {
    match post.area() {
        None => {
            &&& r == Err::<Frame, &'static str>("linear frame allocator could not allocate requested frame")
            &&& post.statuses() == pre.statuses()
            &&& post.count() == pre.count()
            &&& post.next_frame() == start
        },
        Some(b) => if pre.count() < ALLOCATION_LIMIT {
            &&& r == Ok::<Frame, &'static str>(Frame { number: start })
            &&& start * PAGE_SIZE <= u64::MAX
            &&& post.next_frame() == start + 1
            &&& post.statuses() == pre.statuses().update(
                pre.count() as int,
                FrameStatus { frame_address: Some((start * PAGE_SIZE) as u64), used: true },
            )
            &&& post.count() == pre.count() + 1
        } else {
            &&& r == Err::<Frame, &'static str>("linear frame allocator cannot track more frames")
            &&& post.statuses() == pre.statuses()
            &&& post.count() == pre.count()
            &&& post.next_frame() == start
        },
    }
}

/// The outcome of `allocate_frame`: the frame of the first slot given back is handed out
/// again, and the slot is in use once more; otherwise the next frame of the current area,
/// after moving to the next area when the current one is exhausted.
pub open spec fn allocation(pre: LinearFrameAllocator, post: LinearFrameAllocator, r: Result<Frame, &'static str>) -> bool {
    &&& post.map() == pre.map()
    &&& if exists|i: int| is_first_free_status(pre.statuses(), pre.count() as int, i) {
        &&& exists|i: int|
            is_first_free_status(pre.statuses(), pre.count() as int, i) && r == Ok::<Frame, &'static str>(
                Frame { number: (pre.statuses()[i].frame_address->0 / PAGE_SIZE as u64) as u64 },
            )
        &&& exists|i: int|
            is_first_free_status(pre.statuses(), pre.count() as int, i) && post.statuses() == pre.statuses().update(
                i,
                FrameStatus { frame_address: pre.statuses()[i].frame_address, used: true },
            )
        &&& post.next_frame() == pre.next_frame()
        &&& post.area() == pre.area()
        &&& post.count() == pre.count()
    } else {
        let switched = pre.area() matches Some(a) && pre.next_frame() > last_frame(a);
        let start = match post.area() {
            Some(b) => if switched {
                start_in_area(pre.next_frame(), b)
            } else {
                pre.next_frame()
            },
            None => pre.next_frame(),
        };
        &&& !switched ==> post.area() == pre.area()
        &&& switched ==> match post.area() {
            Some(b) => exists|i: int| is_chosen_area(pre.map(), pre.next_frame(), i) && pre.map()[i] == b,
            None => no_area_left(pre.map(), pre.next_frame()),
        }
        &&& hands_out(pre, post, start, r)
    }
}

/// What `allocate_frame` reads and changes of the allocator: the slots and how many are
/// filled, the next free frame, the current area and the memory map.
pub struct LinearView {
    pub statuses: Seq<FrameStatus>,
    pub count: nat,
    pub next: u64,
    pub area: Option<MemoryMapEntry>,
    pub map: Seq<MemoryMapEntry>,
}

/// The view of allocator `a`.
pub open spec fn view_of(a: LinearFrameAllocator) -> LinearView {
    LinearView { statuses: a.statuses(), count: a.count(), next: a.next_frame(), area: a.area(), map: a.map() }
}

/// The current area of `v` is exhausted: `allocate_frame` moves to the next one.
pub open spec fn exhausted(v: LinearView) -> bool {
    v.area matches Some(a) && v.next > last_frame(a)
}

/// The area that `allocate_frame` hands a new frame out of.
pub open spec fn area_in_use(v: LinearView) -> Option<MemoryMapEntry> {
    if exhausted(v) {
        if exists|i: int| is_chosen_area(v.map, v.next, i) {
            Some(v.map[choose|i: int| is_chosen_area(v.map, v.next, i)])
        } else {
            None
        }
    } else {
        v.area
    }
}

/// The frame that a new frame is handed out from: the next free frame, or the first frame of
/// the area moved to.
pub open spec fn next_in_use(v: LinearView) -> u64 {
    match area_in_use(v) {
        Some(b) => if exhausted(v) { start_in_area(v.next, b) } else { v.next },
        None => v.next,
    }
}

/// What `allocate_frame` gives in state `v`.
pub open spec fn state_result(v: LinearView) -> Result<Frame, &'static str> {
    if exists|i: int| is_first_free_status(v.statuses, v.count as int, i) {
        let i = choose|i: int| is_first_free_status(v.statuses, v.count as int, i);
        Ok(Frame { number: (v.statuses[i].frame_address->0 / PAGE_SIZE as u64) as u64 })
    } else {
        match area_in_use(v) {
            None => Err("linear frame allocator could not allocate requested frame"),
            Some(b) => if v.count < ALLOCATION_LIMIT {
                Ok(Frame { number: next_in_use(v) })
            } else {
                Err("linear frame allocator cannot track more frames")
            },
        }
    }
}

/// The state that `allocate_frame` leaves after state `v`.
pub open spec fn state_step(v: LinearView) -> LinearView {
    if exists|i: int| is_first_free_status(v.statuses, v.count as int, i) {
        let i = choose|i: int| is_first_free_status(v.statuses, v.count as int, i);
        LinearView {
            statuses: v.statuses.update(i, FrameStatus { frame_address: v.statuses[i].frame_address, used: true }),
            ..v
        }
    } else {
        let start = next_in_use(v);
        match area_in_use(v) {
            Some(b) => if v.count < ALLOCATION_LIMIT {
                LinearView {
                    statuses: v.statuses.update(
                        v.count as int,
                        FrameStatus { frame_address: Some((start * PAGE_SIZE) as u64), used: true },
                    ),
                    count: v.count + 1,
                    next: (start + 1) as u64,
                    area: Some(b),
                    map: v.map,
                }
            } else {
                LinearView { next: start, area: Some(b), ..v }
            },
            None => LinearView { next: start, area: None, ..v },
        }
    }
}

/// What the call of `allocate_frame` after `k` others gives, from state `v`.
pub open spec fn state_result_after(v: LinearView, k: nat) -> Result<Frame, &'static str>
    decreases k,
{
    if k == 0 {
        state_result(v)
    } else {
        state_result_after(state_step(v), (k - 1) as nat)
    }
}

/// What `allocate_frame` gives in state `pre`.
pub open spec fn allocation_result(pre: LinearFrameAllocator) -> Result<Frame, &'static str> {
    state_result(view_of(pre))
}

/// The outcome relation of `allocate_frame` fixes its result.
proof fn lemma_allocation_result(pre: LinearFrameAllocator, post: LinearFrameAllocator, r: Result<Frame, &'static str>)
    requires
        allocation(pre, post, r),
    ensures
        r == allocation_result(pre),
{
    if exists|i: int| is_first_free_status(pre.statuses(), pre.count() as int, i) {
        let c = choose|i: int| is_first_free_status(pre.statuses(), pre.count() as int, i);
        let w = choose|i: int|
            is_first_free_status(pre.statuses(), pre.count() as int, i) && r == Ok::<Frame, &'static str>(
                Frame { number: (pre.statuses()[i].frame_address->0 / PAGE_SIZE as u64) as u64 },
            );
        if c < w {
            assert(pre.statuses()[c].used);
        }
        if w < c {
            assert(pre.statuses()[w].used);
        }
    } else if exhausted(view_of(pre)) {
        if let Some(b) = post.area() {
            let w = choose|i: int| is_chosen_area(pre.map(), pre.next_frame(), i) && pre.map()[i] == b;
            let c = choose|i: int| is_chosen_area(pre.map(), pre.next_frame(), i);
            assert(area_candidate(pre.map()[c], pre.next_frame()));
            assert(area_candidate(pre.map()[w], pre.next_frame()));
            if c < w {
                assert(pre.map()[w].base < pre.map()[c].base);
            }
            if w < c {
                assert(pre.map()[c].base < pre.map()[w].base);
            }
        } else {
            if exists|i: int| is_chosen_area(pre.map(), pre.next_frame(), i) {
                let c = choose|i: int| is_chosen_area(pre.map(), pre.next_frame(), i);
                assert(area_candidate(pre.map()[c], pre.next_frame()));
            }
        }
    }
}

/// The outcome relation of `allocate_frame` fixes the state it leaves.
proof fn lemma_allocation_step(pre: LinearFrameAllocator, post: LinearFrameAllocator, r: Result<Frame, &'static str>)
    requires
        allocation(pre, post, r),
    ensures
        view_of(post) == state_step(view_of(pre)),
{
    let v = view_of(pre);
    if exists|i: int| is_first_free_status(pre.statuses(), pre.count() as int, i) {
        let c = choose|i: int| is_first_free_status(pre.statuses(), pre.count() as int, i);
        let w = choose|i: int|
            is_first_free_status(pre.statuses(), pre.count() as int, i) && post.statuses() == pre.statuses().update(
                i,
                FrameStatus { frame_address: pre.statuses()[i].frame_address, used: true },
            );
        if c < w {
            assert(pre.statuses()[c].used);
        }
        if w < c {
            assert(pre.statuses()[w].used);
        }
        assert(view_of(post) == state_step(v));
    } else {
        if exhausted(v) {
            if let Some(b) = post.area() {
                let w = choose|i: int| is_chosen_area(pre.map(), pre.next_frame(), i) && pre.map()[i] == b;
                let c = choose|i: int| is_chosen_area(pre.map(), pre.next_frame(), i);
                assert(area_candidate(pre.map()[c], pre.next_frame()));
                assert(area_candidate(pre.map()[w], pre.next_frame()));
                if c < w {
                    assert(pre.map()[w].base < pre.map()[c].base);
                }
                if w < c {
                    assert(pre.map()[c].base < pre.map()[w].base);
                }
            } else {
                if exists|i: int| is_chosen_area(pre.map(), pre.next_frame(), i) {
                    let c = choose|i: int| is_chosen_area(pre.map(), pre.next_frame(), i);
                    assert(area_candidate(pre.map()[c], pre.next_frame()));
                }
            }
        }
        assert(post.area() == area_in_use(v));
        assert(view_of(post) == state_step(v));
    }
}

/// A frame that `allocate_frame` hands out was not in use, and is in use afterwards.
proof fn lemma_allocation_fresh(pre: LinearFrameAllocator, post: LinearFrameAllocator, r: Result<Frame, &'static str>)
    requires
        pre.wf(),
        allocation(pre, post, r),
    ensures
        r matches Ok(f) ==> !in_use(pre, f.number) && in_use(post, f.number),
{
    if let Ok(f) = r {
        if exists|i: int| is_first_free_status(pre.statuses(), pre.count() as int, i) {
            let i = choose|i: int|
                is_first_free_status(pre.statuses(), pre.count() as int, i) && r == Ok::<Frame, &'static str>(
                    Frame { number: (pre.statuses()[i].frame_address->0 / PAGE_SIZE as u64) as u64 },
                );
            let w = choose|i: int|
                is_first_free_status(pre.statuses(), pre.count() as int, i) && post.statuses() == pre.statuses().update(
                    i,
                    FrameStatus { frame_address: pre.statuses()[i].frame_address, used: true },
                );
            if i < w {
                assert(pre.statuses()[i].used);
            }
            if w < i {
                assert(pre.statuses()[w].used);
            }
            let a = pre.statuses()[i].frame_address->0;
            assert(a % 4096 == 0);
            assert(a == (a / 4096) * 4096) by (nonlinear_arith)
                requires
                    a % 4096 == 0,
            ;
            assert(records(post.statuses()[i], f.number));
            if in_use(pre, f.number) {
                let j = choose|j: int|
                    0 <= j < pre.count() && pre.statuses()[j].used && #[trigger] records(pre.statuses()[j], f.number);
                assert(j != i);
                assert(pre.statuses()[j].frame_address == pre.statuses()[i].frame_address);
                if j < i {
                    assert(pre.statuses()[j].frame_address != pre.statuses()[i].frame_address);
                } else {
                    assert(pre.statuses()[i].frame_address != pre.statuses()[j].frame_address);
                }
            }
        } else {
            let k = pre.count() as int;
            assert(records(post.statuses()[k], f.number));
            if in_use(pre, f.number) {
                let j = choose|j: int|
                    0 <= j < pre.count() && pre.statuses()[j].used && #[trigger] records(pre.statuses()[j], f.number);
                let a = pre.statuses()[j].frame_address->0;
                assert(a / 4096 < pre.next_frame());
                assert(a == f.number * 4096);
                assert(f.number >= pre.next_frame());
                assert((f.number * 4096) / 4096 == f.number) by (nonlinear_arith);
            }
        }
    }
}

/// A frame that `deallocate_frame` takes back was in use, and is not in use afterwards.
proof fn lemma_release_frees(pre: LinearFrameAllocator, post: LinearFrameAllocator, frame: Frame, r: Result<(), &'static str>)
    requires
        pre.wf(),
        deallocation(pre, post, frame, r),
    ensures
        r is Ok ==> in_use(pre, frame.number) && !in_use(post, frame.number),
{
    if r is Ok {
        let k = choose|k: int| is_first_record(pre.statuses(), pre.count() as int, frame.number, k);
        assert(records(pre.statuses()[k], frame.number));
        if in_use(post, frame.number) {
            let j = choose|j: int|
                0 <= j < post.count() && post.statuses()[j].used && #[trigger] records(post.statuses()[j], frame.number);
            assert(j != k);
            assert(pre.statuses()[j].frame_address == pre.statuses()[k].frame_address);
            if j < k {
                assert(pre.statuses()[j].frame_address != pre.statuses()[k].frame_address);
            } else {
                assert(pre.statuses()[k].frame_address != pre.statuses()[j].frame_address);
            }
        }
    }
}

/// The outcome of `deallocate_frame(frame)`: the first slot that records `frame` is given
/// back when it is in use; nothing else changes.
pub open spec fn deallocation(pre: LinearFrameAllocator, post: LinearFrameAllocator, frame: Frame, r: Result<(), &'static str>) -> bool {
    &&& post.map() == pre.map()
    &&& post.next_frame() == pre.next_frame()
    &&& post.area() == pre.area()
    &&& post.count() == pre.count()
    &&& r == release_result(pre, frame)
    &&& post.statuses() == if r is Ok {
        let k = choose|k: int| is_first_record(pre.statuses(), pre.count() as int, frame.number, k);
        pre.statuses().update(k, FrameStatus { frame_address: pre.statuses()[k].frame_address, used: false })
    } else {
        pre.statuses()
    }
}

/// Every usable entry of the memory map ends within the address space.
pub open spec fn usable_entries_wf(map: Seq<MemoryMapEntry>) -> bool {
    forall|i: int| 0 <= i < map.len() && (#[trigger] map[i]).entry_type == USABLE ==> map[i].base + map[i].length
        <= u64::MAX
}

/// The addresses recorded in the statuses that are in use, in order.
pub open spec fn used_addresses(statuses: Seq<FrameStatus>) -> Seq<PhysicalAddress>
    decreases statuses.len(),
{
    if statuses.len() == 0 {
        Seq::empty()
    } else {
        let last = statuses.last();
        let rest = used_addresses(statuses.drop_last());
        if last.used && last.frame_address is Some {
            rest.push(last.frame_address->0)
        } else {
            rest
        }
    }
}

/// An address is listed as used exactly when some status in use records it.
pub proof fn lemma_used_addresses_members(statuses: Seq<FrameStatus>)
    ensures
        forall|a: PhysicalAddress|
            #[trigger] used_addresses(statuses).contains(a) <==> exists|k: int|
                0 <= k < statuses.len() && #[trigger] statuses[k].used && statuses[k].frame_address
                    == Some(a),
    decreases statuses.len(),
{
    if statuses.len() > 0 {
        let rest = statuses.drop_last();
        let before = used_addresses(rest);
        let last = statuses.last();
        lemma_used_addresses_members(rest);
        assert forall|a: PhysicalAddress| #[trigger] used_addresses(statuses).contains(a) <==> exists|k: int|
            0 <= k < statuses.len() && #[trigger] statuses[k].used && statuses[k].frame_address
                == Some(a) by {
            let found = exists|k: int|
                0 <= k < statuses.len() && #[trigger] statuses[k].used && statuses[k].frame_address
                    == Some(a);
            let found_before = exists|k: int|
                0 <= k < rest.len() && #[trigger] rest[k].used && rest[k].frame_address == Some(a);
            let by_last = last.used && last.frame_address == Some(a);
            assert(found <==> (found_before || by_last)) by {
                if found {
                    let k = choose|k: int|
                        0 <= k < statuses.len() && #[trigger] statuses[k].used && statuses[k].frame_address
                            == Some(a);
                    if k < rest.len() {
                        assert(rest[k] == statuses[k]);
                    }
                }
                if found_before {
                    let k = choose|k: int|
                        0 <= k < rest.len() && #[trigger] rest[k].used && rest[k].frame_address == Some(a);
                    assert(statuses[k] == rest[k]);
                }
                if by_last {
                    assert(statuses[statuses.len() - 1] == last);
                }
            }
            if last.used && last.frame_address is Some {
                let after = before.push(last.frame_address->0);
                assert(after.contains(a) <==> (before.contains(a) || a == last.frame_address->0)) by {
                    if after.contains(a) {
                        let j = choose|j: int| 0 <= j < after.len() && after[j] == a;
                        if j < before.len() {
                            assert(before[j] == a);
                        }
                    }
                    if before.contains(a) {
                        let j = choose|j: int| 0 <= j < before.len() && before[j] == a;
                        assert(after[j] == a);
                    }
                    if a == last.frame_address->0 {
                        assert(after[after.len() - 1] == a);
                    }
                }
            }
        }
    }
}

} // verus!
