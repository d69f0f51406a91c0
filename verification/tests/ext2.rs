use toast::fs::ext2::{BlockGroupDescriptor, Superblock, EXT2_SIGNATURE};

fn superblock_bytes(log_block_size: u32, version_major: u32) -> Vec<u8> {
    let mut bytes = vec![0u8; 1024];
    bytes[0..4].copy_from_slice(&2048u32.to_le_bytes());
    bytes[4..8].copy_from_slice(&8193u32.to_le_bytes());
    bytes[24..28].copy_from_slice(&log_block_size.to_le_bytes());
    bytes[32..36].copy_from_slice(&8192u32.to_le_bytes());
    bytes[40..44].copy_from_slice(&1024u32.to_le_bytes());
    bytes[56..58].copy_from_slice(&EXT2_SIGNATURE.to_le_bytes());
    bytes[76..80].copy_from_slice(&version_major.to_le_bytes());
    bytes[88..90].copy_from_slice(&256u16.to_le_bytes());
    bytes
}

#[test]
fn superblock_fields_are_decoded() {
    let superblock = Superblock::from_bytes(&superblock_bytes(2, 1));
    assert_eq!(superblock.inode_count, 2048);
    assert_eq!(superblock.block_count, 8193);
    assert_eq!(superblock.log_block_size, 2);
    assert_eq!(superblock.ext2_signature, 0xEF53);
    assert_eq!(superblock.block_size_bytes(), 4096);
    // 8193 blocks in groups of 8192, 2048 inodes in groups of 1024: two groups either way.
    assert_eq!(superblock.block_group_count(), 2);
    assert_eq!(superblock.inode_size(), 256);
}

#[test]
fn revision_zero_inodes_are_128_bytes() {
    let superblock = Superblock::from_bytes(&superblock_bytes(0, 0));
    assert_eq!(superblock.inode_size(), 128);
    assert_eq!(superblock.block_size_bytes(), 1024);
}

#[test]
fn descriptor_table_follows_the_superblock() {
    let small_blocks = Superblock::from_bytes(&superblock_bytes(0, 1));
    assert_eq!(BlockGroupDescriptor::table_entry_offset(&small_blocks, 0), 2048);
    assert_eq!(BlockGroupDescriptor::table_entry_offset(&small_blocks, 3), 2048 + 3 * 32);
    let large_blocks = Superblock::from_bytes(&superblock_bytes(2, 1));
    assert_eq!(BlockGroupDescriptor::table_entry_offset(&large_blocks, 1), 4096 + 32);
}

#[test]
fn descriptor_fields_are_decoded() {
    let mut bytes = vec![0u8; 32];
    bytes[0..4].copy_from_slice(&3u32.to_le_bytes());
    bytes[4..8].copy_from_slice(&4u32.to_le_bytes());
    bytes[8..12].copy_from_slice(&5u32.to_le_bytes());
    bytes[12..14].copy_from_slice(&100u16.to_le_bytes());
    bytes[14..16].copy_from_slice(&200u16.to_le_bytes());
    bytes[16..18].copy_from_slice(&7u16.to_le_bytes());
    let descriptor = BlockGroupDescriptor::from_bytes(&bytes);
    assert_eq!(descriptor.block_bitmap, 3);
    assert_eq!(descriptor.inode_usage_bitmap_address, 4);
    assert_eq!(descriptor.inode_table_block_address, 5);
    assert_eq!(descriptor.unallocated_block_count, 100);
    assert_eq!(descriptor.unallocated_inode_count, 200);
    assert_eq!(descriptor.directory_count, 7);
}
