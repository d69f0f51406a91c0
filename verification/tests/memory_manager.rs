use toast::memory::memory_manager::{BlockAllocator, MemoryManager};
use toast::memory::physical_memory::{Frame, FrameAllocator};
use toast::memory::virtual_memory::paging::entry::{EntryFlags, WRITABLE};
use toast::memory::virtual_memory::paging::{ActivePageTable, Page};
use toast::memory::virtual_memory::{VirtualMemoryManager, KERNEL_ALLOCATION_SPACE_START};

/// Hands out frames one after the other, and blocks from a fixed address.
struct BumpAllocator {
    next: u64,
    block: u64,
    handed_out: usize,
}

impl FrameAllocator for BumpAllocator {
    fn wf_allocator(&self) -> bool {
        true
    }

    fn frame_after(&self, k: u64) -> Result<Frame, &'static str> {
        Ok(Frame { number: self.next + k })
    }

    fn frame_release(&self, _frame: Frame) -> Result<(), &'static str> {
        Ok(())
    }

    fn allocate_frame(&mut self) -> Result<Frame, &'static str> {
        let frame = Frame { number: self.next };
        self.next += 1;
        self.handed_out += 4096;
        Ok(frame)
    }

    fn deallocate_frame(&mut self, _frame: Frame) -> Result<(), &'static str> {
        Ok(())
    }
}

impl BlockAllocator for BumpAllocator {
    fn block_for(&self, _order: usize) -> Result<u64, &'static str> {
        Ok(self.block)
    }

    fn release_of(&self, _address: u64, _order: usize) -> Result<(), &'static str> {
        Ok(())
    }

    fn allocated_amount(&self) -> usize {
        self.handed_out
    }

    fn allocate_frames(&mut self, order: usize) -> Result<u64, &'static str> {
        self.handed_out += 4096 << order;
        Ok(self.block)
    }

    fn deallocate_frames(&mut self, _address: u64, order: usize) -> Result<(), &'static str> {
        self.handed_out -= 4096 << order;
        Ok(())
    }

    fn get_allocated_amount(&self) -> usize {
        self.handed_out
    }
}

fn memory_manager() -> MemoryManager<BumpAllocator> {
    MemoryManager {
        frame_allocator: BumpAllocator { next: 0x500, block: 0x300000, handed_out: 0 },
        active_page_table: ActivePageTable::new_at(Frame { number: 0x100 }),
        virtual_memory_manager: VirtualMemoryManager::new(),
    }
}

#[test]
fn vmm_alloc_maps_every_page_of_the_block() {
    let mut mm = memory_manager();
    let start = mm.vmm_alloc(2 * 4096 + 1, EntryFlags::from_bits_truncate(WRITABLE)).unwrap();
    assert_eq!(start, KERNEL_ALLOCATION_SPACE_START);
    for k in 0..3 {
        let page = Page { number: start / 4096 + k };
        assert!(mm.active_page_table.mapper.translate_page(page).is_some());
    }
    assert_eq!(mm.active_page_table.mapper.translate_page(Page { number: start / 4096 + 3 }), None);
    assert_eq!(mm.get_allocated_memory_amount().1, 3 * 4096);
}

#[test]
fn pmm_identity_then_free() {
    let mut mm = memory_manager();
    let flags = EntryFlags::from_bits_truncate(WRITABLE);
    assert_eq!(mm.pmm_identity(3 * 4096, flags), Some(0x300000));
    // Three pages need a block of four.
    for k in 0..4 {
        let frame = Frame { number: 0x300 + k };
        assert_eq!(mm.active_page_table.mapper.translate_page(Page { number: 0x300 + k }), Some(frame));
    }
    assert_eq!(mm.get_allocated_memory_amount().0, 4 * 4096 + 3 * 4096);
    assert_eq!(mm.pmm_free(3 * 4096, 0x300000), Ok(()));
    for k in 0..4 {
        assert_eq!(mm.active_page_table.mapper.translate_page(Page { number: 0x300 + k }), None);
    }
    // Freeing again fails: the pages are no longer mapped.
    assert_eq!(mm.pmm_free(3 * 4096, 0x300000), Err("pmm: could not free memory"));
}

#[test]
fn pmm_alloc_hands_out_a_block() {
    let mut mm = memory_manager();
    assert_eq!(mm.pmm_alloc(1), Some(0x300000));
    assert_eq!(mm.get_allocated_memory_amount().0, 4096);
}

#[test]
fn pmm_identity_refuses_a_block_already_mapped() {
    let mut mm = memory_manager();
    let flags = EntryFlags::from_bits_truncate(WRITABLE);
    assert_eq!(mm.pmm_identity(4096, flags), Some(0x300000));
    // The allocator hands out the same block again; its page is in use.
    assert_eq!(mm.pmm_identity(4096, flags), None);
    assert_eq!(
        mm.active_page_table.mapper.translate_page(Page { number: 0x300 }),
        Some(Frame { number: 0x300 })
    );
}
