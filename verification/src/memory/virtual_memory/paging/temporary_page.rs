use vstd::prelude::*;
use crate::memory::{PAGE_SIZE, VirtualAddress};
use crate::memory::physical_memory::{Frame, FrameAllocator};
use super::{ActivePageTable, Page};
use super::entry::{EntryFlags, FRAME_NUMBER_LIMIT, WRITABLE};
use super::mapper::{
    layered,
    leaf_cleared,
    lemma_translation_is_4k,
    Mapper,
    existing_path_distinct,
    leaf_unused,
    level1_table,
    no_huge_on_path,
    table_at,
    translation,
    walk_4k,
    walk_tables,
};

verus! {

/// A page used to reach a frame for a short while, with the frames its page tables may need.
pub struct TemporaryPage {
    page: Page,
    allocator: TinyAllocator,
}

impl TemporaryPage {
    /// The page.
    pub closed spec fn page(&self) -> Page {
        self.page
    }

    /// The frames held back for the page tables of the temporary mapping.
    pub closed spec fn spare_frames(&self) -> Seq<Option<Frame>> {
        self.allocator.0@
    }

    /// The page can be mapped through `mapper`: it is not mapped, nothing blocks a walk to
    /// it, the tables on its walk are distinct, and its start address is representable.
    pub open spec fn is_usable_in(&self, mapper: &Mapper) -> bool {
        &&& mapper.wf()
        &&& self.page().number * PAGE_SIZE <= u64::MAX
        &&& no_huge_on_path(mapper.tables(), mapper.p4_frame(), self.page().number)
        &&& leaf_unused(mapper.tables(), mapper.p4_frame(), self.page().number)
        &&& existing_path_distinct(mapper.tables(), mapper.p4_frame(), self.page().number)
        &&& translation(mapper.tables(), mapper.p4_frame(), self.page().number) is None
    }

    pub fn new<A: FrameAllocator>(page: Page, allocator: &mut A) -> (r: Result<TemporaryPage, &'static str>)
        requires
            old(allocator).wf_allocator(),
        ensures
            final(allocator).wf_allocator(),
            r is Ok <==> (old(allocator).frame_after(0) is Ok && old(allocator).frame_after(1) is Ok && old(
                allocator,
            ).frame_after(2) is Ok),
            r matches Ok(t) ==> t.page() == page && forall|i: int|
                0 <= i < 3 ==> #[trigger] t.spare_frames()[i] == Some(old(allocator).frame_after(i as u64)->Ok_0),
    {
        match TinyAllocator::new(allocator) {
            Ok(allocator) => Ok(TemporaryPage { page, allocator }),
            Err(e) => Err(e),
        }
    }

    /// Maps the temporary page to the given frame in the active table.
    /// Returns the start address of the temporary page.
    pub fn map(&mut self, frame: Frame, active_table: &mut ActivePageTable) -> (r: Result<VirtualAddress, &'static str>)
        requires
            old(self).is_usable_in(&old(active_table).mapper),
            frame.number < FRAME_NUMBER_LIMIT,
        ensures
            r is Ok && layered(old(active_table).mapper.tables(), old(active_table).mapper.p4_frame()) ==> forall|q: u64|
                #[trigger] translation(
                    leaf_cleared(
                        final(active_table).mapper.tables(),
                        final(active_table).mapper.p4_frame(),
                        old(self).page().number,
                    ),
                    final(active_table).mapper.p4_frame(),
                    q,
                ) == translation(old(active_table).mapper.tables(), old(active_table).mapper.p4_frame(), q),
            final(self).page() == old(self).page(),
            final(active_table).mapper.wf(),
            final(active_table).mapper.p4_frame() == old(active_table).mapper.p4_frame(),
            r matches Ok(a) ==> {
                &&& a == old(self).page().number * PAGE_SIZE
                &&& walk_tables(
                    final(active_table).mapper.tables(),
                    final(active_table).mapper.p4_frame(),
                    old(self).page().number,
                ) is Some
                &&& translation(
                    final(active_table).mapper.tables(),
                    final(active_table).mapper.p4_frame(),
                    old(self).page().number,
                ) == Some(frame.number)
            },
            layered(old(active_table).mapper.tables(), old(active_table).mapper.p4_frame()) ==> layered(
                final(active_table).mapper.tables(),
                final(active_table).mapper.p4_frame(),
            ),
            walk_tables(old(active_table).mapper.tables(), old(active_table).mapper.p4_frame(), old(self).page().number)
                is Some ==> {
                &&& r is Ok
                &&& final(self).spare_frames() == old(self).spare_frames()
                &&& final(active_table).mapper.tables().dom() == old(active_table).mapper.tables().dom().insert(
                    level1_table(
                        old(active_table).mapper.tables(),
                        old(active_table).mapper.p4_frame(),
                        old(self).page().number,
                    ),
                )
            },
    {
        let flags = EntryFlags::from_bits_truncate(WRITABLE);
        match active_table.mapper.map_to(self.page, frame, flags, &mut self.allocator) {
            Ok(()) => Ok(self.page.start_address()),
            Err(e) => Err(e),
        }
    }

    /// Unmaps the temporary page in the active table and keeps the frame it pointed to among
    /// the spare frames; it fails when every spare slot is taken.
    pub fn unmap(&mut self, active_table: &mut ActivePageTable) -> (r: Result<(), &'static str>)
        requires
            old(active_table).mapper.wf(),
            walk_4k(
                old(active_table).mapper.tables(),
                old(active_table).mapper.p4_frame(),
                old(self).page().number,
            ) is Some,
        ensures
            final(self).page() == old(self).page(),
            final(active_table).mapper.wf(),
            final(active_table).mapper.p4_frame() == old(active_table).mapper.p4_frame(),
            final(active_table).mapper.tables() == old(active_table).mapper.tables().insert(
                level1_table(
                    old(active_table).mapper.tables(),
                    old(active_table).mapper.p4_frame(),
                    old(self).page().number,
                ),
                table_at(
                    old(active_table).mapper.tables(),
                    level1_table(
                        old(active_table).mapper.tables(),
                        old(active_table).mapper.p4_frame(),
                        old(self).page().number,
                    ),
                ).update(super::table_index(old(self).page().number, 1) as int, 0),
            ),
            translation(
                final(active_table).mapper.tables(),
                final(active_table).mapper.p4_frame(),
                old(self).page().number,
            ) is None,
            layered(old(active_table).mapper.tables(), old(active_table).mapper.p4_frame()) ==> layered(
                final(active_table).mapper.tables(),
                final(active_table).mapper.p4_frame(),
            ),
            r is Ok <==> exists|i: int| 0 <= i < 3 && #[trigger] old(self).spare_frames()[i] is None,
    {
        proof {
            lemma_translation_is_4k(old(active_table).mapper.tables(), old(active_table).mapper.p4_frame(), self.page.number);
        }
        let frame = active_table.mapper.unmap_no_dealloc(&self.page);
        match frame {
            Some(frame) => match self.allocator.deallocate_frame(frame) {
                Ok(()) => Ok(()),
                Err(_) => Err("could not deallocate"),
            },
            None => Err("could not deallocate"),
        }
    }
}

/// An allocator holding at most three frames.
pub struct TinyAllocator(pub [Option<Frame>; 3]);

impl TinyAllocator {
    pub fn new<A: FrameAllocator>(allocator: &mut A) -> (r: Result<TinyAllocator, &'static str>)
        requires
            old(allocator).wf_allocator(),
        ensures
            final(allocator).wf_allocator(),
            r is Ok <==> (old(allocator).frame_after(0) is Ok && old(allocator).frame_after(1) is Ok && old(
                allocator,
            ).frame_after(2) is Ok),
            r matches Ok(t) ==> forall|i: int|
                0 <= i < 3 ==> #[trigger] t.0@[i] == Some(old(allocator).frame_after(i as u64)->Ok_0),
    {
        let f1 = match allocator.allocate_frame() {
            Ok(f) => f,
            Err(_) => {
                return Err("could not allocate frame");
            },
        };
        let f2 = match allocator.allocate_frame() {
            Ok(f) => f,
            Err(_) => {
                return Err("could not allocate frame");
            },
        };
        let f3 = match allocator.allocate_frame() {
            Ok(f) => f,
            Err(_) => {
                return Err("could not allocate frame");
            },
        };
        Ok(TinyAllocator([Some(f1), Some(f2), Some(f3)]))
    }
}

/// The index of the first slot that holds a frame.
pub open spec fn first_full(slots: Seq<Option<Frame>>, i: int) -> bool {
    &&& 0 <= i < slots.len()
    &&& slots[i] is Some
    &&& forall|j: int| 0 <= j < i ==> #[trigger] slots[j] is None
}

/// Two first slots that hold a frame are the same slot.
proof fn lemma_first_full_unique(slots: Seq<Option<Frame>>, i: int)
    requires
        first_full(slots, i),
    ensures
        forall|j: int| #[trigger] first_full(slots, j) ==> j == i,
{
}

/// The slots after the first slot that holds a frame hands it out.
pub open spec fn tiny_step(slots: Seq<Option<Frame>>) -> Seq<Option<Frame>> {
    if exists|i: int| first_full(slots, i) {
        slots.update(choose|i: int| first_full(slots, i), None)
    } else {
        slots
    }
}

/// What handing out a frame gives: the frame of the first slot that holds one.
pub open spec fn tiny_result(slots: Seq<Option<Frame>>) -> Result<Frame, &'static str> {
    if exists|i: int| first_full(slots, i) {
        Ok(slots[choose|i: int| first_full(slots, i)]->0)
    } else {
        Err("could not allocate frame")
    }
}

/// What handing out a frame gives after `k` frames were asked for.
pub open spec fn tiny_result_after(slots: Seq<Option<Frame>>, k: nat) -> Result<Frame, &'static str>
    decreases k,
{
    if k == 0 {
        tiny_result(slots)
    } else {
        tiny_result_after(tiny_step(slots), (k - 1) as nat)
    }
}

/// The index of the first empty slot.
pub open spec fn first_empty(slots: Seq<Option<Frame>>, i: int) -> bool {
    &&& 0 <= i < slots.len()
    &&& slots[i] is None
    &&& forall|j: int| 0 <= j < i ==> #[trigger] slots[j] is Some
}

impl FrameAllocator for TinyAllocator {
    open spec fn wf_allocator(&self) -> bool {
        true
    }

    open spec fn frame_after(&self, k: u64) -> Result<Frame, &'static str> {
        tiny_result_after(self.0@, k as nat)
    }

    open spec fn frame_release(&self, frame: Frame) -> Result<(), &'static str> {
        if exists|i: int| first_empty(self.0@, i) {
            Ok(())
        } else {
            Err("Tiny allocator can hold only 3 frames.")
        }
    }

    /// Hands out the frame of the first slot that holds one.
    fn allocate_frame(&mut self) -> (r: Result<Frame, &'static str>)
        ensures
            match r {
                Ok(f) => exists|i: int| #[trigger] first_full(old(self).0@, i) && old(self).0@[i] == Some(f)
                    && final(self).0@ == old(self).0@.update(i, None),
                Err(_) => forall|i: int| 0 <= i < 3 ==> #[trigger] old(self).0@[i] is None,
            },
    {
        let mut i: usize = 0;
        while i < 3
            invariant
                i <= 3,
                self.0@ == old(self).0@,
                forall|j: int| 0 <= j < i ==> #[trigger] self.0@[j] is None,
            decreases 3 - i,
        {
            if let Some(frame) = self.0[i] {
                self.0[i] = None;
                proof {
                    assert(first_full(old(self).0@, i as int));
                    lemma_first_full_unique(old(self).0@, i as int);
                    assert(self.0@ == tiny_step(old(self).0@));
                    assert forall|k: u64| k < u64::MAX implies #[trigger] self.frame_after(k) == old(self).frame_after(
                        (k + 1) as u64,
                    ) by {
                        assert(tiny_result_after(old(self).0@, (k + 1) as nat) == tiny_result_after(
                            tiny_step(old(self).0@),
                            k as nat,
                        ));
                    }
                }
                return Ok(frame);
            }
            i = i + 1;
        }
        proof {
            assert(!exists|j: int| first_full(old(self).0@, j));
            assert(self.0@ == tiny_step(old(self).0@));
            assert forall|k: u64| k < u64::MAX implies #[trigger] self.frame_after(k) == old(self).frame_after(
                (k + 1) as u64,
            ) by {
                assert(tiny_result_after(old(self).0@, (k + 1) as nat) == tiny_result_after(
                    tiny_step(old(self).0@),
                    k as nat,
                ));
            }
        }
        Err("could not allocate frame")
    }

    /// Puts `frame` in the first empty slot.
    fn deallocate_frame(&mut self, frame: Frame) -> (r: Result<(), &'static str>)
        ensures
            match r {
                Ok(()) => exists|i: int| #[trigger] first_empty(old(self).0@, i)
                    && final(self).0@ == old(self).0@.update(i, Some(frame)),
                Err(_) => forall|i: int| 0 <= i < 3 ==> #[trigger] old(self).0@[i] is Some,
            },
    {
        let mut i: usize = 0;
        while i < 3
            invariant
                i <= 3,
                self.0@ == old(self).0@,
                forall|j: int| 0 <= j < i ==> #[trigger] self.0@[j] is Some,
            decreases 3 - i,
        {
            if self.0[i].is_none() {
                self.0[i] = Some(frame);
                assert(first_empty(old(self).0@, i as int));
                return Ok(());
            }
            i = i + 1;
        }
        Err("Tiny allocator can hold only 3 frames.")
    }
}

} // verus!
