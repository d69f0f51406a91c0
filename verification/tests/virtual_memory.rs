use toast::memory::virtual_memory::{
    VirtualMemoryManager, KERNEL_ALLOCATION_SPACE_SIZE, KERNEL_ALLOCATION_SPACE_START,
};
use toast::memory::PAGE_SIZE;

const PAGE: u64 = PAGE_SIZE as u64;

fn assert_vmm_trees_are_equivalent(vmm: &VirtualMemoryManager) {
    let addresses = vmm.free_address_list();
    let regions = vmm.free_size_list();
    assert_eq!(regions.len(), addresses.len());
    for (start, size) in &addresses {
        assert!(regions.contains(&((*size, *start), *start)));
    }
}

#[test]
fn allocate_page_happy_path() {
    let mut vmm = VirtualMemoryManager::new();
    let starting_region_size = vmm.free_address_list()[0].1;
    let expected_region_size = starting_region_size - PAGE;

    let alloc = vmm.allocate_page();

    assert!(alloc.is_ok());
    assert_eq!(vmm.free_address_list()[0].1, expected_region_size);
    assert_vmm_trees_are_equivalent(&vmm);
}

#[test]
fn allocate_multiple_pages_happy_path() {
    let mut vmm = VirtualMemoryManager::new();
    let starting_region_size = vmm.free_address_list()[0].1;
    let expected_region_size = starting_region_size - 5 * PAGE;

    let alloc = vmm.allocate_pages(5);

    assert!(alloc.is_ok());
    assert_eq!(vmm.free_address_list()[0].1, expected_region_size);
    assert_vmm_trees_are_equivalent(&vmm);
}

#[test]
fn allocate_page_out_of_memory() {
    // Use up every page of the allocation space.
    let mut vmm = VirtualMemoryManager::new();
    let all_pages = (KERNEL_ALLOCATION_SPACE_SIZE / PAGE) as usize;
    assert!(vmm.allocate_pages(all_pages).is_ok());

    let alloc = vmm.allocate_page();

    assert!(alloc.is_err());
    assert_eq!(alloc.unwrap_err(), "vmm: not enough memory");
}

#[test]
fn deallocation_no_merge() {
    let mut vmm = VirtualMemoryManager::new();
    let expected_addresses = vec![
        (KERNEL_ALLOCATION_SPACE_START, PAGE),
        (KERNEL_ALLOCATION_SPACE_START + 2 * PAGE, KERNEL_ALLOCATION_SPACE_SIZE - 2 * PAGE),
    ];
    let expected_regions = vec![
        ((PAGE, KERNEL_ALLOCATION_SPACE_START), KERNEL_ALLOCATION_SPACE_START),
        (
            (KERNEL_ALLOCATION_SPACE_SIZE - 2 * PAGE, KERNEL_ALLOCATION_SPACE_START + 2 * PAGE),
            KERNEL_ALLOCATION_SPACE_START + 2 * PAGE,
        ),
    ];

    let alloc1 = vmm.allocate_page();
    let _alloc2 = vmm.allocate_page();
    let dealloc = vmm.deallocate_page(alloc1.unwrap());

    assert!(dealloc.is_ok());
    assert_vmm_trees_are_equivalent(&vmm);
    assert_eq!(vmm.free_address_list(), expected_addresses);
    assert_eq!(vmm.free_size_list(), expected_regions);
}

#[test]
fn deallocation_merge_right() {
    let mut vmm = VirtualMemoryManager::new();
    let expected_regions = vmm.free_size_list();
    let expected_addresses = vmm.free_address_list();

    let alloc = vmm.allocate_page();
    let dealloc = vmm.deallocate_page(alloc.unwrap());

    assert!(dealloc.is_ok());
    assert_vmm_trees_are_equivalent(&vmm);
    assert_eq!(vmm.free_size_list(), expected_regions);
    assert_eq!(vmm.free_address_list(), expected_addresses);
}

#[test]
fn deallocation_merge_left() {
    let mut vmm = VirtualMemoryManager::new();
    let expected_addresses = vec![
        (KERNEL_ALLOCATION_SPACE_START, 2 * PAGE),
        (KERNEL_ALLOCATION_SPACE_START + 3 * PAGE, KERNEL_ALLOCATION_SPACE_SIZE - 3 * PAGE),
    ];
    let expected_regions = vec![
        ((2 * PAGE, KERNEL_ALLOCATION_SPACE_START), KERNEL_ALLOCATION_SPACE_START),
        (
            (KERNEL_ALLOCATION_SPACE_SIZE - 3 * PAGE, KERNEL_ALLOCATION_SPACE_START + 3 * PAGE),
            KERNEL_ALLOCATION_SPACE_START + 3 * PAGE,
        ),
    ];

    let alloc1 = vmm.allocate_page();
    let alloc2 = vmm.allocate_page();
    let _alloc3 = vmm.allocate_page();
    let dealloc1 = vmm.deallocate_page(alloc1.unwrap());
    let dealloc2 = vmm.deallocate_page(alloc2.unwrap());

    assert!(dealloc1.is_ok());
    assert!(dealloc2.is_ok());
    assert_vmm_trees_are_equivalent(&vmm);
    assert_eq!(vmm.free_address_list(), expected_addresses);
    assert_eq!(vmm.free_size_list(), expected_regions);
}

#[test]
fn allocation_takes_the_best_fit() {
    let mut vmm = VirtualMemoryManager::new();
    let a = vmm.allocate_pages(3).unwrap();
    let b = vmm.allocate_page().unwrap();
    assert_eq!(a, KERNEL_ALLOCATION_SPACE_START);
    assert_eq!(b, KERNEL_ALLOCATION_SPACE_START + 3 * PAGE);
    // Give back the three pages: the next page comes from that smaller hole.
    vmm.deallocate_pages(a, 3).unwrap();
    assert_eq!(vmm.allocate_page(), Ok(KERNEL_ALLOCATION_SPACE_START));
    assert_eq!(vmm.get_allocated_amount(), 2 * PAGE);
}

#[test]
fn allocate_then_free_restores_the_space() {
    let mut vmm = VirtualMemoryManager::new();
    let before = vmm.free_address_list();
    let a = vmm.allocate_pages(7).unwrap();
    assert_eq!(vmm.get_allocated_amount(), 7 * PAGE);
    vmm.deallocate_pages(a, 7).unwrap();
    assert_eq!(vmm.free_address_list(), before);
    assert_eq!(vmm.get_allocated_amount(), 0);
}

#[test]
fn deallocate_pages_refuses_memory_already_free() {
    let mut vmm = VirtualMemoryManager::new();
    assert_eq!(vmm.deallocate_pages(KERNEL_ALLOCATION_SPACE_START, 1), Err("vmm: memory is already free"));
    assert_eq!(vmm.get_allocated_amount(), 0);
    let a = vmm.allocate_pages(2).unwrap();
    // The page after the two handed out is still free.
    assert_eq!(vmm.deallocate_pages(a + PAGE, 2), Err("vmm: memory is already free"));
    assert_eq!(vmm.deallocate_pages(a, 2), Ok(()));
    assert_eq!(vmm.get_allocated_amount(), 0);
}

#[test]
fn new_holds_the_whole_allocation_space() {
    let mut vmm = VirtualMemoryManager::new();
    assert_eq!(KERNEL_ALLOCATION_SPACE_SIZE, 0x36FF00000000);
    assert_eq!(vmm.allocate_pages((KERNEL_ALLOCATION_SPACE_SIZE / PAGE) as usize), Ok(KERNEL_ALLOCATION_SPACE_START));
}

#[test]
fn allocated_and_free_bytes_make_up_the_space() {
    let mut vmm = VirtualMemoryManager::new();
    let a = vmm.allocate_pages(3).unwrap();
    let b = vmm.allocate_pages(5).unwrap();
    vmm.deallocate_pages(a, 3).unwrap();
    let _c = vmm.allocate_page().unwrap();
    let free: u64 = vmm.free_address_list().iter().map(|(_, size)| size).sum();
    assert_eq!(free + vmm.get_allocated_amount(), KERNEL_ALLOCATION_SPACE_SIZE);
    vmm.deallocate_pages(b, 5).unwrap();
    let free: u64 = vmm.free_address_list().iter().map(|(_, size)| size).sum();
    assert_eq!(free + vmm.get_allocated_amount(), KERNEL_ALLOCATION_SPACE_SIZE);
}
