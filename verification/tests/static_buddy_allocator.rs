use toast::memory::memory_map::{MemoryMapEntry, RESERVED, USABLE};
use toast::memory::physical_memory::static_buddy_allocator::{BuddyAllocator, MemoryRegion};

const HHDM: u64 = 0xffff_8000_0000_0000;

fn entry(base: u64, length: u64, entry_type: u64) -> MemoryMapEntry {
    MemoryMapEntry { base, length, entry_type }
}

#[test]
fn static_buddy_allocator_init_lays_out_each_usable_region() {
    let map = vec![
        entry(0x1000, 0x10000, USABLE),
        entry(0x20000, 0x4000, RESERVED),
        entry(0x100000, 0x7001, USABLE),
    ];
    let header = std::mem::size_of::<MemoryRegion>() as u64;
    let allocator = BuddyAllocator::init(&map, HHDM).expect("the first region holds the reserve");
    assert_eq!(allocator.first_region, HHDM + 0x1000);
    assert_eq!(allocator.allocated_amount, 0);
    assert_eq!(allocator.regions.len(), 2);

    let first = &allocator.regions[0];
    assert_eq!(first.region_start_address, 0x1000);
    assert_eq!(first.region_size, 0x10000);
    assert_eq!(first.region_frame_count, 16);
    assert_eq!(first.memory_blocks.len(), 31);
    assert_eq!(first.memory_blocks.get_full_size(), 4);
    assert_eq!(first.memory_blocks.get_node(30), Ok(false));

    let second = &allocator.regions[1];
    assert_eq!(second.region_start_address, 0x100000);
    assert_eq!(second.region_frame_count, 8);
    assert_eq!(second.memory_blocks.len(), 15);
    assert_eq!(second.memory_blocks.get_full_size(), 2);

    // Each descriptor is followed by its region's tree.
    assert_eq!(allocator.region_addresses, vec![HHDM + 0x1000, HHDM + 0x1000 + header + 4]);
}

#[test]
fn static_buddy_allocator_init_starts_on_a_page_boundary() {
    let map = vec![entry(0x1234, 0x20000, USABLE)];
    let allocator = BuddyAllocator::init(&map, HHDM).expect("the region holds the reserve");
    assert_eq!(allocator.first_region, HHDM + 0x2000);
    assert_eq!(allocator.regions[0].region_frame_count, 32);
}

#[test]
fn static_buddy_allocator_init_skips_regions_too_small_for_the_reserve() {
    let map = vec![entry(0x1000, 0x10, USABLE), entry(0x200000, 0x10000, USABLE)];
    let allocator = BuddyAllocator::init(&map, 0).expect("the second region holds the reserve");
    assert_eq!(allocator.first_region, 0x200000);
    assert_eq!(allocator.regions.len(), 2);
    assert_eq!(allocator.regions[0].region_frame_count, 1);
    assert_eq!(allocator.regions[0].memory_blocks.get_full_size(), 1);
}

#[test]
fn static_buddy_allocator_init_without_room() {
    let map = vec![entry(0x1000, 0x10, USABLE), entry(0x2000, 0x1000, RESERVED)];
    assert_eq!(
        BuddyAllocator::init(&map, HHDM).err(),
        Some("pmm: could not find a suitable memory region to hold the pmm")
    );
}

#[test]
fn static_memory_region_covers_every_frame() {
    let region = MemoryRegion::new(0x5000, 0x3001, vec![0xFF, 0x00]);
    assert_eq!(region.region_frame_count, 4);
    assert_eq!(region.memory_blocks.len(), 7);
    assert_eq!(region.memory_blocks.get_node(0), Ok(true));
    assert_eq!(region.memory_blocks.get_node(7), Err("requested index outside tree boundary"));
}
