use toast::memory::heap_allocator::{list_index, HEAP_SIZE};
use toast::memory::memory_manager::block_order;
use toast::memory::memory_map::entry_type_label;
use toast::utils::bitmap_btree::BitmapBinaryTree;
use toast::utils::bitutils::{is_nth_bit_set, set_bit_to, test_bit};

#[test]
fn bits() {
    assert!(is_nth_bit_set(0b100, 2));
    assert!(!is_nth_bit_set(0b100, 1));
    assert!(test_bit(0x80, 7));
    assert!(!test_bit(0x7f, 7));
    assert_eq!(set_bit_to(0b0000_0001, 3, true), 0b0000_1001);
    assert_eq!(set_bit_to(0b0000_1001, 0, false), 0b0000_1000);
}

#[test]
fn bitmap_tree_nodes() {
    let mut tree = BitmapBinaryTree::new(vec![0b0000_0100, 0], 4);
    assert_eq!(tree.len(), 7);
    assert_eq!(tree.get_node(2), Ok(true));
    assert_eq!(tree.get_node(3), Ok(false));
    assert_eq!(tree.set_node(3, true), Ok(()));
    assert_eq!(tree.get_node(3), Ok(true));
    assert_eq!(tree.set_node(2, false), Ok(()));
    assert_eq!(tree.get_node(2), Ok(false));
    assert_eq!(tree.get_node(7), Err("requested index outside tree boundary"));
    assert_eq!(tree.set_node(9, true), Err("requested index outside tree boundary"));
}

#[test]
fn bitmap_tree_shape() {
    let tree = BitmapBinaryTree::new(vec![0, 0], 4);
    assert_eq!(tree.get_children_indices(0), Ok(Some((1, 2))));
    assert_eq!(tree.get_children_indices(2), Ok(Some((5, 6))));
    assert_eq!(tree.get_children_indices(3), Ok(None));
    assert_eq!(tree.get_children_indices(7), Err("requested index outside tree boundary"));
    assert_eq!(tree.get_height(), 3);
    assert_eq!(BitmapBinaryTree::new(vec![0], 1).get_height(), 1);
}

#[test]
fn slab_size_classes() {
    assert_eq!(list_index(8, 8), Some(0));
    assert_eq!(list_index(9, 1), Some(1));
    assert_eq!(list_index(1, 64), Some(3));
    assert_eq!(list_index(2048, 1), Some(8));
    assert_eq!(list_index(2049, 1), None);
    assert_eq!(list_index(1, 4096), None);
}

#[test]
fn block_orders() {
    assert_eq!(block_order(0), Some(0));
    assert_eq!(block_order(1), Some(0));
    assert_eq!(block_order(2), Some(1));
    assert_eq!(block_order(3), Some(2));
    assert_eq!(block_order(1024), Some(10));
    assert_eq!(block_order(1025), None);
}

#[test]
fn test_heap() {
    // Simple allocation
    {
        let heap_value_1 = Box::new(41);
        let heap_value_2 = Box::new(13);
        assert_eq!(*heap_value_1, 41);
        assert_eq!(*heap_value_2, 13);
    }
    // Large vec
    {
        let n = 1000;
        let mut vec = Vec::new();
        for i in 0..n {
            vec.push(i);
        }
        assert_eq!(vec.iter().sum::<u64>(), (n - 1) * n / 2);
    }
    // Many boxes
    {
        for i in 0..HEAP_SIZE {
            let x = Box::new(i);
            assert_eq!(*x, i);
        }
    }
}

#[test]
fn memory_map_listing_names_entry_types() {
    assert_eq!(entry_type_label(0), Some("usable"));
    assert_eq!(entry_type_label(2), Some("acpi reclaimable"));
    assert_eq!(entry_type_label(6), Some("kernel"));
    assert_eq!(entry_type_label(7), Some("framebuffer"));
    assert_eq!(entry_type_label(8), None);
}

#[test]
fn is_nth_bit_set_reads_the_top_bit() {
    assert!(is_nth_bit_set(1usize << 63, 63));
    assert!(!is_nth_bit_set(usize::MAX >> 1, 63));
}
