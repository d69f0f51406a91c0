use toast::memory::memory_map::{MemoryMapEntry, RESERVED, USABLE};
use toast::memory::physical_memory::buddy_allocator_bitmap::{BuddyAllocator, MemoryRegion, MEMORY_REGION_SIZE};
use toast::memory::physical_memory::linear_frame_allocator::LinearFrameAllocator;
use toast::memory::physical_memory::static_linear_allocator::{PmmModule, StaticLinearAllocator, PMM_MODULE_SIZE};
use toast::memory::physical_memory::{Frame, FrameAllocator};
use toast::memory::PAGE_SIZE;

fn entry(base: u64, length: u64, entry_type: u64) -> MemoryMapEntry {
    MemoryMapEntry { base, length, entry_type }
}

#[test]
fn order_bitmap_size_order_zero() {
    // Region fits exactly
    assert_eq!(MemoryRegion::order_bitmap_size(8, 0), 1);
    assert_eq!(MemoryRegion::order_bitmap_size(472, 0), 59);

    // Region falls between byte boundaries
    assert_eq!(MemoryRegion::order_bitmap_size(10, 0), 2);
    assert_eq!(MemoryRegion::order_bitmap_size(212, 0), 27);

    // Region smaller than 1 byte
    assert_eq!(MemoryRegion::order_bitmap_size(4, 0), 1);
    assert_eq!(MemoryRegion::order_bitmap_size(7, 0), 1);
}

#[test]
fn order_bitmap_size_order_nonzero() {
    // Region fits exactly
    assert_eq!(MemoryRegion::order_bitmap_size(32, 1), 2);
    assert_eq!(MemoryRegion::order_bitmap_size(2048, 3), 32);

    // Region fits no higher order buddies
    assert_eq!(MemoryRegion::order_bitmap_size(8, 1), 0);

    // Region doesn't fit in higher order buddies
    assert_eq!(MemoryRegion::order_bitmap_size(24, 1), 1);
}

#[test]
fn new_memory_region_full() {
    // 0x2000000 bytes => 0x2000 frames
    let region_start = 0xffff_8000_0000_0000u64;
    let region_size = 0x2000000usize;
    let expected_bitmap_size = 0x7FFusize;
    let expected_frame_count = 0x2000;
    let bitmap_start_address = 0xffff_8000_0010_0000u64;
    let expected_memory_maps = [
        Some(bitmap_start_address),
        Some(bitmap_start_address + 0x400),
        Some(bitmap_start_address + 0x600),
        Some(bitmap_start_address + 0x700),
        Some(bitmap_start_address + 0x780),
        Some(bitmap_start_address + 0x7C0),
        Some(bitmap_start_address + 0x7E0),
        Some(bitmap_start_address + 0x7F0),
        Some(bitmap_start_address + 0x7F8),
        Some(bitmap_start_address + 0x7FC),
        Some(bitmap_start_address + 0x7FE),
    ];
    let mut memory = vec![0xAAu8; expected_bitmap_size + 16];

    let region = MemoryRegion::new(region_start, region_size, bitmap_start_address, &mut memory);

    assert_eq!(region.region_start_address, region_start);
    assert_eq!(region.region_size, region_size);
    assert_eq!(region.bitmap_size, expected_bitmap_size);
    assert_eq!(region.region_frame_count, expected_frame_count);
    assert_eq!(region.bitmaps, expected_memory_maps);
    assert!((0..expected_bitmap_size).all(|i| memory[i] == 0));
    assert!((expected_bitmap_size..expected_bitmap_size + 16).all(|i| memory[i] == 0xAA));
}

#[test]
fn new_memory_region_not_full() {
    // 0x400000 bytes => 0x400 frames
    let region_start = 0xffff_8000_0000_0000u64;
    let region_size = 0x400000usize;
    let expected_bitmap_size = 0xFFusize;
    let expected_frame_count = 0x400;
    let bitmap_start_address = 0xffff_8000_0020_0000u64;
    let expected_memory_maps = [
        Some(bitmap_start_address),
        Some(bitmap_start_address + 0x80),
        Some(bitmap_start_address + 0xC0),
        Some(bitmap_start_address + 0xE0),
        Some(bitmap_start_address + 0xF0),
        Some(bitmap_start_address + 0xF8),
        Some(bitmap_start_address + 0xFC),
        Some(bitmap_start_address + 0xFE),
        None,
        None,
        None,
    ];
    let mut memory = vec![0x55u8; expected_bitmap_size];

    let region = MemoryRegion::new(region_start, region_size, bitmap_start_address, &mut memory);

    assert_eq!(region.region_start_address, region_start);
    assert_eq!(region.region_size, region_size);
    assert_eq!(region.bitmap_size, expected_bitmap_size);
    assert_eq!(region.region_frame_count, expected_frame_count);
    assert_eq!(region.bitmaps, expected_memory_maps);
    assert!((0..expected_bitmap_size).all(|i| memory[i] == 0));
}

#[test]
fn order_bitmap_address_sums_lower_orders() {
    assert_eq!(MemoryRegion::order_bitmap_address(0x1000, 0x2000, 0), 0x1000);
    assert_eq!(MemoryRegion::order_bitmap_address(0x1000, 0x2000, 2), 0x1000 + 0x400 + 0x200);
    assert_eq!(MemoryRegion::order_bitmap_address(0, 0x400, 11), 0xFF);
}

#[test]
fn buddy_allocator_init() {
    let header = MEMORY_REGION_SIZE as u64;
    let map = vec![
        entry(0x0, 0x1000, RESERVED),
        entry(0x1000, 0x10, USABLE),
        entry(0x100000, 0x400000, USABLE),
        entry(0x800000, 0x2000000, USABLE),
    ];
    let hhdm = 0xffff_8000_0000_0000u64;
    let allocator = BuddyAllocator::init(&map, hhdm).unwrap();

    // The metadata goes to the first usable entry large enough, from a page boundary.
    assert_eq!(allocator.first_region, hhdm + 0x100000);
    assert_eq!(allocator.regions.len(), 3);
    assert_eq!(allocator.bitmaps.len(), 3);

    let first = &allocator.regions[0];
    assert_eq!(first.region_start_address, 0x1000);
    assert_eq!(first.region_size, 0x10);
    assert_eq!(first.region_frame_count, 1);
    assert_eq!(first.bitmap_size, 1);
    assert_eq!(first.bitmap_start, hhdm + 0x100000 + header);

    let second = &allocator.regions[1];
    assert_eq!(second.region_start_address, 0x100000);
    assert_eq!(second.region_frame_count, 0x400);
    assert_eq!(second.bitmap_size, 0xFF);
    assert_eq!(second.bitmap_start, hhdm + 0x100000 + header + 1 + header);

    let third = &allocator.regions[2];
    assert_eq!(third.region_frame_count, 0x2000);
    assert_eq!(third.bitmap_size, 0x7FF);
    assert_eq!(third.bitmap_start, hhdm + 0x100000 + 3 * header + 1 + 0xFF);

    for (k, bitmap) in allocator.bitmaps.iter().enumerate() {
        assert_eq!(bitmap.len(), allocator.regions[k].bitmap_size);
        assert!(bitmap.iter().all(|b| *b == 0));
    }
}

#[test]
fn buddy_allocator_init_rounds_up_to_a_page() {
    let map = vec![entry(0x100010, 0x400000, USABLE)];
    let allocator = BuddyAllocator::init(&map, 0).unwrap();
    assert_eq!(allocator.first_region, 0x101000);
}

#[test]
fn buddy_allocator_init_without_room() {
    let map = vec![entry(0x0, 0x1000, RESERVED), entry(0x1000, 0x10, USABLE)];
    let result = BuddyAllocator::init(&map, 0);
    assert_eq!(result.err(), Some("pmm: could not find a suitable memory region to hold the pmm"));
}

#[test]
fn static_linear_allocator_init_places_modules() {
    let header = PMM_MODULE_SIZE as u64;
    let map = vec![entry(0x0, 0x1000, RESERVED), entry(0x200000, 0x400000, USABLE), entry(0x800000, 0x8000, USABLE)];
    let allocator = StaticLinearAllocator::init(&map, 0x10000).unwrap();
    assert_eq!(allocator.root_module, 0x210000);
    assert_eq!(allocator.modules.len(), 2);
    assert_eq!(allocator.modules[0].start_address, 0x200000);
    assert_eq!(allocator.modules[0].bitmap_entry_count, 0x400);
    assert_eq!(allocator.modules[0].bitmap_size, 0x80);
    assert_eq!(allocator.modules[0].bitmap, 0x210000);
    assert_eq!(allocator.modules[1].bitmap_entry_count, 8);
    assert_eq!(allocator.modules[1].bitmap_size, 1);
    assert_eq!(allocator.modules[1].bitmap, 0x210000 + 2 * header);
    assert!(allocator.modules.iter().all(|m| m.last_free.is_none()));
    // Each module links to the next one.
    assert_eq!(allocator.modules[0].next, Some(0x210000 + 2 * header));
    assert_eq!(allocator.modules[1].next, None);
}

#[test]
fn static_linear_allocator_never_finds_a_frame() {
    let map = vec![entry(0x200000, 0x400000, USABLE)];
    let mut allocator = StaticLinearAllocator::init(&map, 0).unwrap();
    assert_eq!(allocator.allocate_frame(), Err("pmm: could not allocate frame (memory full)"));
}

#[test]
fn static_linear_allocator_init_refuses_a_region_smaller_than_its_headers() {
    let map = vec![entry(0x200000, 0x100000, RESERVED), entry(0x1000, 0x10, USABLE)];
    assert_eq!(
        StaticLinearAllocator::init(&map, 0).err(),
        Some("pmm: could not find a suitable memory region to hold the pmm")
    );
}

#[test]
fn static_linear_allocator_init_without_room() {
    let map = vec![entry(0x200000, 0x1, RESERVED)];
    assert_eq!(
        StaticLinearAllocator::init(&map, 0).err(),
        Some("pmm: could not find a suitable memory region to hold the pmm")
    );
}

#[test]
fn frame_containing_address_and_start() {
    let frame = Frame::containing_address(0x5123);
    assert_eq!(frame.number, 5);
    assert_eq!(frame.start_address(), 0x5000);
    assert_eq!(Frame::containing_address(0xfff).number, 0);
}

#[test]
fn frame_range_is_inclusive() {
    let mut range = Frame::range_inclusive(Frame { number: 3 }, Frame { number: 5 });
    assert_eq!(range.next(), Some(Frame { number: 3 }));
    assert_eq!(range.next(), Some(Frame { number: 4 }));
    assert_eq!(range.next(), Some(Frame { number: 5 }));
    assert_eq!(range.next(), None);
    assert_eq!(range.next(), None);
}

#[test]
fn linear_allocator_hands_out_frames_in_order() {
    let map = vec![entry(0x0, 0x1000, RESERVED), entry(0x3000, 0x2000, USABLE), entry(0x10000, 0x1000, USABLE)];
    let mut allocator = LinearFrameAllocator::new(map);
    assert_eq!(allocator.allocate_frame(), Ok(Frame { number: 3 }));
    assert_eq!(allocator.allocate_frame(), Ok(Frame { number: 4 }));
    // The first area is exhausted: the next one starts at frame 0x10.
    assert_eq!(allocator.allocate_frame(), Ok(Frame { number: 0x10 }));
    assert_eq!(
        allocator.allocate_frame(),
        Err("linear frame allocator could not allocate requested frame")
    );
    assert_eq!(allocator.allocated_frames(), vec![0x3000, 0x4000, 0x10000]);
}

#[test]
fn linear_allocator_reuses_a_given_back_frame() {
    let map = vec![entry(0x0, 0x3000, USABLE)];
    let mut allocator = LinearFrameAllocator::new(map);
    let first = allocator.allocate_frame().unwrap();
    let second = allocator.allocate_frame().unwrap();
    assert_eq!((first.number, second.number), (0, 1));
    assert_eq!(allocator.deallocate_frame(second), Ok(()));
    assert_eq!(allocator.allocated_frames(), vec![0x0]);
    // The given-back frame is handed out again, and is then in use.
    assert_eq!(allocator.allocate_frame(), Ok(second));
    assert_eq!(allocator.allocated_frames(), vec![0x0, 0x1000]);
    assert_eq!(allocator.allocate_frame(), Ok(Frame { number: 2 }));
}

#[test]
fn linear_allocator_never_hands_out_a_frame_twice() {
    let map = vec![entry(0x1000, 0x3000, USABLE)];
    let mut allocator = LinearFrameAllocator::new(map);
    assert_eq!(allocator.allocate_frame(), Ok(Frame { number: 1 }));
    // Frame 0x1000 was never handed out: its number is not the address of frame 1.
    assert_eq!(allocator.deallocate_frame(Frame { number: 0x1000 }), Err("error deallocating frame"));
    assert_eq!(allocator.allocate_frame(), Ok(Frame { number: 2 }));
}

#[test]
fn linear_allocator_refuses_a_frame_given_back_twice() {
    let map = vec![entry(0x3000, 0x4000, USABLE)];
    let mut allocator = LinearFrameAllocator::new(map);
    let frame = allocator.allocate_frame().unwrap();
    assert_eq!(allocator.deallocate_frame(frame), Ok(()));
    assert_eq!(allocator.deallocate_frame(frame), Err("cannot deallocate a non-allocated frame"));
}

#[test]
fn linear_allocator_refuses_an_unknown_frame() {
    let map = vec![entry(0x3000, 0x4000, USABLE)];
    let mut allocator = LinearFrameAllocator::new(map);
    allocator.allocate_frame().unwrap();
    assert_eq!(allocator.deallocate_frame(Frame { number: 4 }), Err("error deallocating frame"));
    assert_eq!(allocator.deallocate_frame(Frame { number: u64::MAX }), Err("error deallocating frame"));
    assert_eq!(allocator.allocated_frames(), vec![0x3000]);
}

#[test]
fn linear_allocator_without_usable_memory() {
    let mut allocator = LinearFrameAllocator::new(vec![entry(0x0, 0x1000, RESERVED)]);
    assert_eq!(
        allocator.allocate_frame(),
        Err("linear frame allocator could not allocate requested frame")
    );
    assert!(allocator.allocated_frames().is_empty());
}

#[test]
fn page_size_is_four_kib() {
    assert_eq!(PAGE_SIZE, 4096);
}

#[test]
fn pmm_module_hands_out_the_recorded_frame() {
    let module = PmmModule { start_address: 0x200000, bitmap_size: 1, bitmap_entry_count: 8, last_free: Some(3), bitmap: 0, next: None };
    let mut clear = module;
    assert_eq!(clear.allocate_frame(&vec![0b0000_0000]), Some(0x203000));
    assert_eq!(clear.last_free, Some(6));
    let mut taken = module;
    assert_eq!(taken.allocate_frame(&vec![0b0000_1000]), Some(0x203000));
    assert_eq!(taken.last_free, Some(3));
    let mut outside = PmmModule { last_free: Some(9), ..module };
    assert_eq!(outside.allocate_frame(&vec![]), Some(0x209000));
    assert_eq!(outside.last_free, Some(9));
    let mut none = PmmModule { last_free: None, ..module };
    assert_eq!(none.allocate_frame(&vec![0]), None);
}

#[test]
fn linear_allocator_skips_an_empty_usable_entry() {
    let map = vec![entry(0x1000, 0, USABLE), entry(0x5000, 0x1000, USABLE)];
    let mut allocator = LinearFrameAllocator::new(map);
    assert_eq!(allocator.allocate_frame(), Ok(Frame { number: 5 }));
    assert_eq!(
        allocator.allocate_frame(),
        Err("linear frame allocator could not allocate requested frame")
    );
}
