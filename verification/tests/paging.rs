use toast::memory::heap_allocator::{init_heap, map_heap_page, HEAP_SIZE, HEAP_START};
use toast::memory::memory_map::{MemoryMapEntry, KERNEL_AND_MODULES, USABLE};
use toast::memory::physical_memory::linear_frame_allocator::LinearFrameAllocator;
use toast::memory::physical_memory::{Frame, FrameAllocator};
use toast::memory::virtual_memory::paging::entry::{Entry, EntryFlags, HUGE_PAGE, PRESENT, WRITABLE, NO_EXECUTE};
use toast::memory::virtual_memory::paging::mapper::Mapper;
use toast::memory::virtual_memory::paging::table::Table;
use toast::memory::virtual_memory::paging::temporary_page::TinyAllocator;
use toast::memory::virtual_memory::paging::temporary_page::TemporaryPage;
use toast::memory::virtual_memory::paging::{
    setup_page_tables, ActivePageTable, InactivePageTable, Page, ENTRY_COUNT, KERNEL_START_VMA_ADDRESS,
};

fn usable(base: u64, length: u64) -> MemoryMapEntry {
    MemoryMapEntry { base, length, entry_type: USABLE }
}

#[test]
fn page_indices() {
    let page = Page::containing_address(0x0000_7f12_3456_7000);
    assert_eq!(page.start_address(), 0x0000_7f12_3456_7000);
    assert_eq!(page.p4_index(), (0x0000_7f12_3456_7000u64 >> 39) as usize & 0x1ff);
    assert_eq!(page.p3_index(), (0x0000_7f12_3456_7000u64 >> 30) as usize & 0x1ff);
    assert_eq!(page.p2_index(), (0x0000_7f12_3456_7000u64 >> 21) as usize & 0x1ff);
    assert_eq!(page.p1_index(), (0x0000_7f12_3456_7000u64 >> 12) as usize & 0x1ff);
}

#[test]
fn page_range_is_inclusive() {
    let mut range = Page::range_inclusive(Page { number: 7 }, Page { number: 8 });
    assert_eq!(range.next(), Some(Page { number: 7 }));
    assert_eq!(range.next(), Some(Page { number: 8 }));
    assert_eq!(range.next(), None);
}

#[test]
fn entry_flags_operations() {
    let flags = EntryFlags::from_bits_truncate(PRESENT | WRITABLE | (1 << 20));
    assert_eq!(flags.bits(), PRESENT | WRITABLE);
    assert!(flags.contains(EntryFlags::from_bits_truncate(WRITABLE)));
    assert!(!flags.contains(EntryFlags::from_bits_truncate(HUGE_PAGE)));
    assert_eq!(flags.union(EntryFlags::from_bits_truncate(NO_EXECUTE)).bits(), PRESENT | WRITABLE | NO_EXECUTE);
    assert_eq!(EntryFlags::empty().bits(), 0);
}

#[test]
fn entry_set_and_read_back() {
    let mut entry = Entry(0);
    assert!(entry.is_unused());
    assert_eq!(entry.pointed_frame(), None);
    entry.set(Frame { number: 0x1234 }, EntryFlags::from_bits_truncate(PRESENT | WRITABLE));
    assert!(!entry.is_unused());
    assert_eq!(entry.0, 0x1234000 | PRESENT | WRITABLE);
    assert_eq!(entry.flags().bits(), PRESENT | WRITABLE);
    assert_eq!(entry.pointed_frame(), Some(Frame { number: 0x1234 }));
    entry.set_unused();
    assert!(entry.is_unused());
}

#[test]
fn entry_not_present_points_nowhere() {
    let entry = Entry(0x5000 | WRITABLE);
    assert_eq!(entry.pointed_frame(), None);
}

#[test]
fn table_zero_clears_entries() {
    let mut table = Table::new();
    table.set_entry(3, Entry(0x7000 | PRESENT));
    assert_eq!(table.entry(3).0, 0x7000 | PRESENT);
    table.zero();
    assert!((0..ENTRY_COUNT).all(|i| table.entry(i).is_unused()));
}

#[test]
fn map_to_then_translate() {
    let mut allocator = LinearFrameAllocator::new(vec![usable(0x200000, 0x100000)]);
    let mut mapper = Mapper::new_at(Frame { number: 0x100 });
    let page = Page::containing_address(0x0000_1234_5678_9000);
    let frame = Frame { number: 0x42 };
    assert_eq!(mapper.translate_page(page), None);

    mapper.map_to(page, frame, EntryFlags::from_bits_truncate(WRITABLE), &mut allocator).unwrap();

    assert_eq!(mapper.translate_page(page), Some(frame));
    assert_eq!(mapper.translate(0x0000_1234_5678_9abc), Some(0x42abc));
    // The level 3, 2 and 1 tables came from the allocator.
    assert_eq!(allocator.allocated_frames(), vec![0x200000, 0x201000, 0x202000]);
    // A neighbouring page stays unmapped.
    assert_eq!(mapper.translate_page(Page { number: page.number + 1 }), None);
}

#[test]
fn map_takes_a_frame_from_the_allocator() {
    let mut allocator = LinearFrameAllocator::new(vec![usable(0x200000, 0x100000)]);
    let mut mapper = Mapper::new_at(Frame { number: 0x100 });
    let page = Page::containing_address(0x0000_0000_4000_0000);
    mapper.map(page, EntryFlags::empty(), &mut allocator).unwrap();
    assert_eq!(mapper.translate_page(page), Some(Frame { number: 0x200 }));
}

#[test]
fn identity_map_maps_a_frame_to_itself() {
    let mut allocator = LinearFrameAllocator::new(vec![usable(0x200000, 0x100000)]);
    let mut mapper = Mapper::new_at(Frame { number: 0x100 });
    let frame = Frame { number: 0xb8 };
    mapper.identity_map(frame, EntryFlags::from_bits_truncate(WRITABLE), &mut allocator).unwrap();
    assert_eq!(mapper.translate(0xb8123), Some(0xb8123));
    assert_eq!(mapper.translate_page(Page { number: 0xb8 }), Some(frame));
}

#[test]
fn unmap_no_dealloc_forgets_the_mapping() {
    let mut allocator = LinearFrameAllocator::new(vec![usable(0x200000, 0x100000)]);
    let mut mapper = Mapper::new_at(Frame { number: 0x100 });
    let page = Page::containing_address(0x0000_0010_0000_0000);
    let frame = Frame { number: 0x77 };
    mapper.map_to(page, frame, EntryFlags::empty(), &mut allocator).unwrap();
    assert_eq!(mapper.unmap_no_dealloc(&page), Some(frame));
    assert_eq!(mapper.translate_page(page), None);
}

#[test]
fn unmap_gives_the_frame_back() {
    let mut allocator = LinearFrameAllocator::new(vec![usable(0x200000, 0x100000)]);
    let mut tiny = TinyAllocator::new(&mut allocator).unwrap();
    let mut mapper = Mapper::new_at(Frame { number: 0x100 });
    let page = Page::containing_address(0x0000_0020_0000_0000);
    let frame = tiny.allocate_frame().unwrap();
    mapper.map_to(page, frame, EntryFlags::empty(), &mut allocator).unwrap();
    assert_eq!(mapper.unmap(page, &mut tiny), Ok(()));
    assert_eq!(mapper.translate_page(page), None);
    // The frame went back to the allocator, which hands it out again.
    assert_eq!(tiny.allocate_frame(), Ok(frame));
}

#[test]
fn map_without_a_frame_changes_nothing() {
    let mut allocator = LinearFrameAllocator::new(vec![usable(0x200000, 0x100000)]);
    let mut empty = TinyAllocator::new(&mut allocator).unwrap();
    for _ in 0..3 {
        empty.allocate_frame().unwrap();
    }
    let mut mapper = Mapper::new_at(Frame { number: 0x100 });
    let page = Page::containing_address(0x0000_0000_4000_0000);
    assert_eq!(mapper.map(page, EntryFlags::empty(), &mut empty), Err("out of memory"));
    assert_eq!(mapper.translate_page(page), None);
}

#[test]
fn map_to_leaves_other_pages_unmapped() {
    let mut allocator = LinearFrameAllocator::new(vec![usable(0x200000, 0x100000)]);
    let mut mapper = Mapper::new_at(Frame { number: 0x100 });
    let page = Page::containing_address(0x0000_0000_4000_0000);
    mapper.map_to(page, Frame { number: 0x42 }, EntryFlags::empty(), &mut allocator).unwrap();
    for other in [page.number - 1, page.number + 1, page.number + 512, page.number + 512 * 512] {
        assert_eq!(mapper.translate_page(Page { number: other }), None);
    }
}

#[test]
fn tiny_allocator_holds_three_frames() {
    let mut allocator = LinearFrameAllocator::new(vec![usable(0x200000, 0x100000)]);
    let mut tiny = TinyAllocator::new(&mut allocator).unwrap();
    let a = tiny.allocate_frame().unwrap();
    let b = tiny.allocate_frame().unwrap();
    let c = tiny.allocate_frame().unwrap();
    assert_eq!((a.number, b.number, c.number), (0x200, 0x201, 0x202));
    assert_eq!(tiny.allocate_frame(), Err("could not allocate frame"));
    assert_eq!(tiny.deallocate_frame(a), Ok(()));
    assert_eq!(tiny.deallocate_frame(b), Ok(()));
    assert_eq!(tiny.deallocate_frame(c), Ok(()));
    assert_eq!(tiny.deallocate_frame(Frame { number: 9 }), Err("Tiny allocator can hold only 3 frames."));
}

const HHDM: u64 = 0xffff_8000_0000_0000;

/// Hands out frames one after the other, from frame `next` on.
struct TableFrames {
    next: u64,
}

impl FrameAllocator for TableFrames {
    fn wf_allocator(&self) -> bool {
        true
    }

    fn frame_after(&self, k: u64) -> Result<Frame, &'static str> {
        Ok(Frame { number: self.next + k })
    }

    fn frame_release(&self, _frame: Frame) -> Result<(), &'static str> {
        Ok(())
    }

    fn allocate_frame(&mut self) -> Result<Frame, &'static str> {
        let frame = Frame { number: self.next };
        self.next += 1;
        Ok(frame)
    }

    fn deallocate_frame(&mut self, _frame: Frame) -> Result<(), &'static str> {
        Ok(())
    }
}

#[test]
fn setup_page_tables_maps_physical_memory_and_the_kernel() {
    let mut table = ActivePageTable::new_at(Frame { number: 0x100 });
    let mut allocator = TableFrames { next: 0x10_0000 };
    let map = vec![
        usable(0x1000, 0x1000),
        MemoryMapEntry { base: 0x20_0000, length: 0x3000, entry_type: KERNEL_AND_MODULES },
    ];
    assert_eq!(setup_page_tables(&mut table, &map, HHDM, &mut allocator), Ok(()));
    assert_eq!(table.mapper.translate(HHDM + 0x1234), Some(0x1234));
    assert_eq!(table.mapper.translate(HHDM + 0xFFE0_0000), Some(0xFFE0_0000));
    assert_eq!(table.mapper.translate(HHDM + 0xFFE0_1000), None);
    assert_eq!(table.mapper.translate(KERNEL_START_VMA_ADDRESS + 0x20_0010), Some(0x20_0010));
    // The frame holding the address just past the section is mapped too.
    assert_eq!(table.mapper.translate(KERNEL_START_VMA_ADDRESS + 0x20_3000), Some(0x20_3000));
    assert_eq!(table.mapper.translate(KERNEL_START_VMA_ADDRESS + 0x20_4000), None);
}

#[test]
fn setup_page_tables_without_frames_for_tables() {
    let mut table = ActivePageTable::new_at(Frame { number: 0x100 });
    let mut allocator = LinearFrameAllocator::new(vec![]);
    assert_eq!(setup_page_tables(&mut table, &vec![], HHDM, &mut allocator), Err("mm: out of memory"));
    assert_eq!(table.mapper.translate(HHDM), None);
}

#[test]
fn setup_page_tables_refuses_a_page_already_mapped() {
    let mut table = ActivePageTable::new_at(Frame { number: 0x100 });
    let mut allocator = LinearFrameAllocator::new(vec![usable(0x1_0000_0000, 0x10_0000)]);
    let page = Page::containing_address(HHDM + 0x5000);
    assert_eq!(table.mapper.map_to(page, Frame { number: 7 }, EntryFlags::empty(), &mut allocator), Ok(()));
    assert_eq!(setup_page_tables(&mut table, &vec![], HHDM, &mut allocator), Err("mm: page already mapped"));
    assert_eq!(table.mapper.translate(HHDM + 0x5000), Some(0x7000));
    // The frames before it were mapped on the way.
    assert_eq!(table.mapper.translate(HHDM + 0x4000), Some(0x4000));
}

#[test]
fn init_heap_maps_every_page_of_the_heap() {
    let mut table = ActivePageTable::new_at(Frame { number: 0x100 });
    let mut allocator = TableFrames { next: 0x10_0000 };
    assert_eq!(init_heap(&mut table, &mut allocator, HHDM), Ok(()));
    let first = HHDM + HEAP_START;
    let last = first + HEAP_SIZE as u64 - 1;
    assert!(table.mapper.translate(first).is_some());
    assert!(table.mapper.translate(first + 0x1234).is_some());
    assert!(table.mapper.translate(last).is_some());
    assert_eq!(table.mapper.translate((last & !0xFFF) + 0x1000), None);
    assert_eq!(table.mapper.translate(first - 1), None);
}

#[test]
fn init_heap_refuses_a_page_already_mapped() {
    let mut table = ActivePageTable::new_at(Frame { number: 0x100 });
    let mut allocator = TableFrames { next: 0x10_0000 };
    let page = Page::containing_address(HHDM + HEAP_START + 0x3000);
    assert_eq!(table.mapper.map_to(page, Frame { number: 9 }, EntryFlags::empty(), &mut allocator), Ok(()));
    assert_eq!(init_heap(&mut table, &mut allocator, HHDM), Err("mm: heap page cannot be mapped"));
    assert_eq!(table.mapper.translate(HHDM + HEAP_START + 0x3000), Some(0x9000));
}

#[test]
fn inactive_page_table_built_through_new_tables() {
    let mut table = ActivePageTable::new_at(Frame { number: 0x100 });
    let mut allocator = TableFrames { next: 0x10_0000 };
    let mut temporary_page = TemporaryPage::new(Page { number: 0xcafe }, &mut allocator).unwrap();
    let inactive = InactivePageTable::new(Frame { number: 0x200 }, &mut table, &mut temporary_page).unwrap();
    assert_eq!(inactive.p4_frame, Frame { number: 0x200 });
    assert_eq!(table.mapper.translate(0xcafe * 4096), None);
    assert!(table.mapper.holds_table(Frame { number: 0x200 }));
}

#[test]
fn inactive_page_table_needs_a_free_spare_slot() {
    let mut table = ActivePageTable::new_at(Frame { number: 0x100 });
    let mut allocator = TableFrames { next: 0x10_0000 };
    // The walk to the temporary page exists, so no spare frame is used and none is free.
    assert_eq!(table.mapper.map_to(Page { number: 0xcaff }, Frame { number: 5 }, EntryFlags::empty(), &mut allocator), Ok(()));
    let mut temporary_page = TemporaryPage::new(Page { number: 0xcafe }, &mut allocator).unwrap();
    assert_eq!(
        InactivePageTable::new(Frame { number: 0x200 }, &mut table, &mut temporary_page).err(),
        Some("could not deallocate")
    );
}

#[test]
fn map_to_needs_no_frame_once_the_walk_exists() {
    let mut table = ActivePageTable::new_at(Frame { number: 0x100 });
    let mut allocator = TableFrames { next: 0x10_0000 };
    assert_eq!(table.mapper.map_to(Page { number: 0x400 }, Frame { number: 3 }, EntryFlags::empty(), &mut allocator), Ok(()));
    let mut empty = LinearFrameAllocator::new(vec![]);
    assert_eq!(table.mapper.map_to(Page { number: 0x401 }, Frame { number: 4 }, EntryFlags::empty(), &mut empty), Ok(()));
    assert_eq!(table.mapper.translate(0x401 * 4096 + 8), Some(0x4008));
    assert_eq!(table.mapper.identity_map(Frame { number: 0x402 }, EntryFlags::empty(), &mut empty), Ok(()));
    assert_eq!(table.mapper.translate(0x402 * 4096), Some(0x402 * 4096));
    // A page in another level-1 table needs new tables, which the empty allocator cannot give.
    assert_eq!(table.mapper.map_to(Page { number: 0x40_0000 }, Frame { number: 5 }, EntryFlags::empty(), &mut empty).is_err(), true);
}

#[test]
fn map_heap_page_maps_or_refuses() {
    let mut allocator = LinearFrameAllocator::new(vec![usable(0x200000, 0x100000)]);
    let mut table = ActivePageTable::new_at(Frame { number: 0x100 });
    let page = Page::containing_address(0x0000_0000_4000_0000);
    assert_eq!(
        map_heap_page(&mut table, page, Frame { number: 1 << 40 }, &mut allocator),
        Err("mm: heap page cannot be mapped")
    );
    assert_eq!(table.mapper.translate_page(page), None);
    assert_eq!(map_heap_page(&mut table, page, Frame { number: 0x42 }, &mut allocator), Ok(()));
    assert_eq!(table.mapper.translate_page(page), Some(Frame { number: 0x42 }));
    // The page is in use now.
    assert_eq!(
        map_heap_page(&mut table, page, Frame { number: 0x43 }, &mut allocator),
        Err("mm: heap page cannot be mapped")
    );
    assert_eq!(table.mapper.translate_page(page), Some(Frame { number: 0x42 }));
}

#[test]
fn map_to_makes_only_the_missing_level_one_table() {
    let mut allocator = LinearFrameAllocator::new(vec![usable(0x200000, 0x100000)]);
    let mut mapper = Mapper::new_at(Frame { number: 0x100 });
    let page = Page::containing_address(0x0000_0000_4000_0000);
    mapper.map_to(page, Frame { number: 0x42 }, EntryFlags::empty(), &mut allocator).unwrap();
    assert_eq!(allocator.allocated_frames(), vec![0x200000, 0x201000, 0x202000]);
    // The next 2 MiB region shares the level-2 table: only a level-1 table is made.
    let next = Page { number: page.number + 512 };
    assert_eq!(mapper.map_to(next, Frame { number: 0x43 }, EntryFlags::empty(), &mut allocator), Ok(()));
    assert_eq!(allocator.allocated_frames(), vec![0x200000, 0x201000, 0x202000, 0x203000]);
    assert_eq!(mapper.translate_page(next), Some(Frame { number: 0x43 }));
}
