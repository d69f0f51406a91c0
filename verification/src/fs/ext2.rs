use vstd::prelude::*;
use vstd::arithmetic::power2::pow2;
use crate::memory::physical_memory::buddy_allocator_bitmap::{ceil_div, div_ceil, lemma_ceil_div_is_least_cover};

verus! {

/// The magic number of an ext2 superblock.
pub const EXT2_SIGNATURE: u16 = 0xEF53;

/// Where the superblock starts on the disk, in bytes.
pub const SUPERBLOCK_OFFSET: u16 = 1024;

/// The number of bytes of the superblock that are decoded.
pub const SUPERBLOCK_DECODED_SIZE: usize = 90;

/// The size in bytes of a block group descriptor.
pub const BLOCK_GROUP_DESCRIPTOR_SIZE: usize = 32;

/// The little-endian 32-bit number at `at` in `bytes`.
pub open spec fn le_u32(bytes: Seq<u8>, at: int) -> u32 {
    (bytes[at] + 256 * bytes[at + 1] + 65536 * bytes[at + 2] + 16777216 * bytes[at + 3]) as u32
}

/// The little-endian 16-bit number at `at` in `bytes`.
pub open spec fn le_u16(bytes: Seq<u8>, at: int) -> u16 {
    (bytes[at] + 256 * bytes[at + 1]) as u16
}

fn read_u32(bytes: &Vec<u8>, at: usize) -> (r: u32)
    requires
        at + 4 <= bytes@.len(),
        at + 4 <= usize::MAX,
    ensures
        r == le_u32(bytes@, at as int),
{
    (bytes[at] as u32) + 256 * (bytes[at + 1] as u32) + 65536 * (bytes[at + 2] as u32) + 16777216 * (
    bytes[at + 3] as u32)
}

fn read_u16(bytes: &Vec<u8>, at: usize) -> (r: u16)
    requires
        at + 2 <= bytes@.len(),
        at + 2 <= usize::MAX,
    ensures
        r == le_u16(bytes@, at as int),
{
    (bytes[at] as u16) + 256 * (bytes[at + 1] as u16)
}

/// The fields of an ext2 superblock that the file system reads.
#[derive(Debug, Clone, Copy, PartialEq, Eq, Structural)]
pub struct Superblock {
    pub inode_count: u32,
    pub block_count: u32,
    pub log_block_size: u32,
    pub block_group_block_count: u32,
    pub block_group_inode_count: u32,
    pub ext2_signature: u16,
    /// 0 for the first revision, 1 for the dynamic one
    pub version_major: u32,
    /// The size of an inode, in the dynamic revision
    pub inode_byte_size: u16,
}

/// The superblock whose bytes, from its start, are `bytes`.
pub open spec fn decoded_superblock(bytes: Seq<u8>) -> Superblock {
    Superblock {
        inode_count: le_u32(bytes, 0),
        block_count: le_u32(bytes, 4),
        log_block_size: le_u32(bytes, 24),
        block_group_block_count: le_u32(bytes, 32),
        block_group_inode_count: le_u32(bytes, 40),
        ext2_signature: le_u16(bytes, 56),
        version_major: le_u32(bytes, 76),
        inode_byte_size: le_u16(bytes, 88),
    }
}

/// Where each field lies in the superblock (all little-endian): the inode count in the
/// 32-bit word at byte 0, the block count at 4, the block size (as the shift of 1024)
/// at 24, the blocks per group at 32, the inodes per group at 40, the signature in
/// the 16-bit word at 56, the major version in the word at 76 and the inode size in the
/// 16-bit word at 88.
pub proof fn lemma_superblock_layout(bytes: Seq<u8>)
    requires
        bytes.len() >= SUPERBLOCK_DECODED_SIZE,
    ensures
        decoded_superblock(bytes).inode_count == bytes[0] + 256 * bytes[1] + 65536 * bytes[2] + 16777216 * bytes[3],
        decoded_superblock(bytes).block_count == bytes[4] + 256 * bytes[5] + 65536 * bytes[6] + 16777216 * bytes[7],
        decoded_superblock(bytes).log_block_size == bytes[24] + 256 * bytes[25] + 65536 * bytes[26] + 16777216 * bytes[27],
        decoded_superblock(bytes).block_group_block_count == bytes[32] + 256 * bytes[33] + 65536 * bytes[34] + 16777216 * bytes[35],
        decoded_superblock(bytes).block_group_inode_count == bytes[40] + 256 * bytes[41] + 65536 * bytes[42] + 16777216 * bytes[43],
        decoded_superblock(bytes).ext2_signature == bytes[56] + 256 * bytes[57],
        decoded_superblock(bytes).version_major == bytes[76] + 256 * bytes[77] + 65536 * bytes[78] + 16777216 * bytes[79],
        decoded_superblock(bytes).inode_byte_size == bytes[88] + 256 * bytes[89],
{
}

impl Superblock {
    /// Decodes the superblock read from the disk; it must carry the ext2 signature.
    pub fn from_bytes(bytes: &Vec<u8>) -> (r: Superblock)
        requires
            bytes@.len() >= SUPERBLOCK_DECODED_SIZE,
            le_u16(bytes@, 56) == EXT2_SIGNATURE,
        ensures
            r == decoded_superblock(bytes@),
            r.inode_count == bytes@[0] + 256 * bytes@[1] + 65536 * bytes@[2] + 16777216 * bytes@[3],
            r.block_count == bytes@[4] + 256 * bytes@[5] + 65536 * bytes@[6] + 16777216 * bytes@[7],
            r.log_block_size == bytes@[24] + 256 * bytes@[25] + 65536 * bytes@[26] + 16777216 * bytes@[27],
            r.block_group_block_count == bytes@[32] + 256 * bytes@[33] + 65536 * bytes@[34] + 16777216 * bytes@[35],
            r.block_group_inode_count == bytes@[40] + 256 * bytes@[41] + 65536 * bytes@[42] + 16777216 * bytes@[43],
            r.ext2_signature == bytes@[56] + 256 * bytes@[57],
            r.version_major == bytes@[76] + 256 * bytes@[77] + 65536 * bytes@[78] + 16777216 * bytes@[79],
            r.inode_byte_size == bytes@[88] + 256 * bytes@[89],
    {
        proof {
            lemma_superblock_layout(bytes@);
        }
        Superblock {
            inode_count: read_u32(bytes, 0),
            block_count: read_u32(bytes, 4),
            log_block_size: read_u32(bytes, 24),
            block_group_block_count: read_u32(bytes, 32),
            block_group_inode_count: read_u32(bytes, 40),
            ext2_signature: read_u16(bytes, 56),
            version_major: read_u32(bytes, 76),
            inode_byte_size: read_u16(bytes, 88),
        }
    }

    /// The number of block groups: the blocks and the inodes spread over them must agree.
    pub fn block_group_count(&self) -> (r: usize)
        requires
            self.block_group_block_count > 0,
            self.block_group_inode_count > 0,
            ceil_div(self.block_count as nat, self.block_group_block_count as nat) == ceil_div(
                self.inode_count as nat,
                self.block_group_inode_count as nat,
            ),
        ensures
            r == ceil_div(self.block_count as nat, self.block_group_block_count as nat),
            r * self.block_group_block_count >= self.block_count,
            r * self.block_group_block_count < self.block_count + self.block_group_block_count,
    {
        proof {
            lemma_ceil_div_is_least_cover(self.block_count as nat, self.block_group_block_count as nat);
        }
        let count_from_blocks = div_ceil(self.block_count as usize, self.block_group_block_count as usize);
        let count_from_inodes = div_ceil(self.inode_count as usize, self.block_group_inode_count as usize);
        assert(count_from_blocks == count_from_inodes);
        count_from_blocks
    }

    /// The size of an inode: 128 bytes in revision 0, as recorded in the dynamic
    /// one.
    pub fn inode_size(&self) -> (r: u16)
        requires
            self.version_major <= 1,
        ensures
            r == if self.version_major == 0 {
                128
            } else {
                self.inode_byte_size
            },
    {
        if self.version_major == 0 {
            128
        } else {
            self.inode_byte_size
        }
    }

    /// The size of a block in bytes: 1024 shifted left by the recorded logarithm.
    pub fn block_size_bytes(&self) -> (r: usize)
        requires
            1024 * pow2(self.log_block_size as nat) <= usize::MAX,
        ensures
            r == 1024 * pow2(self.log_block_size as nat),
    {
        let log = self.log_block_size as usize;
        proof {
            vstd::arithmetic::power2::lemma2_to64();
            if log >= usize::BITS {
                if log > usize::BITS {
                    vstd::arithmetic::power2::lemma_pow2_strictly_increases(usize::BITS as nat, log as nat);
                }
                assert(false);
            }
            vstd::bits::lemma_usize_shl_is_mul(1024, log);
        }
        1024usize << log
    }
}

/// The fields of a block group descriptor.
#[derive(Debug, Clone, Copy, PartialEq, Eq, Structural)]
pub struct BlockGroupDescriptor {
    pub block_bitmap: u32,
    pub inode_usage_bitmap_address: u32,
    pub inode_table_block_address: u32,
    pub unallocated_block_count: u16,
    pub unallocated_inode_count: u16,
    pub directory_count: u16,
}

impl BlockGroupDescriptor {
    /// Where descriptor `index` of the block group descriptor table is on the disk: the table
    /// starts in the block after the superblock's, that is at 2048 with 1 KiB blocks and at
    /// the second block otherwise.
    pub fn table_entry_offset(superblock: &Superblock, index: usize) -> (r: usize)
        requires
            2 * 1024 * pow2(superblock.log_block_size as nat) + index * BLOCK_GROUP_DESCRIPTOR_SIZE <= usize::MAX,
        ensures
            r == 1024 * pow2(superblock.log_block_size as nat) * (if superblock.log_block_size == 0 {
                2int
            } else {
                1int
            }) + index * BLOCK_GROUP_DESCRIPTOR_SIZE,
    {
        let ghost p = pow2(superblock.log_block_size as nat);
        proof {
            vstd::arithmetic::power2::lemma_pow2_pos(superblock.log_block_size as nat);
            assert(2 * 1024 * p == 2048 * p);
            assert(1024 * p <= 2048 * p);
            assert(index * BLOCK_GROUP_DESCRIPTOR_SIZE >= 0);
        }
        let block_size = superblock.block_size_bytes();
        let first_entry_address = block_size * if superblock.log_block_size == 0 {
            2
        } else {
            1
        };
        first_entry_address + index * BLOCK_GROUP_DESCRIPTOR_SIZE
    }

    /// Decodes descriptor bytes read from the disk.
    pub fn from_bytes(bytes: &Vec<u8>) -> (r: BlockGroupDescriptor)
        requires
            bytes@.len() >= BLOCK_GROUP_DESCRIPTOR_SIZE,
        ensures
            r.block_bitmap == le_u32(bytes@, 0),
            r.inode_usage_bitmap_address == le_u32(bytes@, 4),
            r.inode_table_block_address == le_u32(bytes@, 8),
            r.unallocated_block_count == le_u16(bytes@, 12),
            r.unallocated_inode_count == le_u16(bytes@, 14),
            r.directory_count == le_u16(bytes@, 16),
            r.block_bitmap == bytes@[0] + 256 * bytes@[1] + 65536 * bytes@[2] + 16777216 * bytes@[3],
            r.inode_usage_bitmap_address == bytes@[4] + 256 * bytes@[5] + 65536 * bytes@[6]
                + 16777216 * bytes@[7],
            r.inode_table_block_address == bytes@[8] + 256 * bytes@[9] + 65536 * bytes@[10]
                + 16777216 * bytes@[11],
            r.unallocated_block_count == bytes@[12] + 256 * bytes@[13],
            r.unallocated_inode_count == bytes@[14] + 256 * bytes@[15],
            r.directory_count == bytes@[16] + 256 * bytes@[17],
    {
        BlockGroupDescriptor {
            block_bitmap: read_u32(bytes, 0),
            inode_usage_bitmap_address: read_u32(bytes, 4),
            inode_table_block_address: read_u32(bytes, 8),
            unallocated_block_count: read_u16(bytes, 12),
            unallocated_inode_count: read_u16(bytes, 14),
            directory_count: read_u16(bytes, 16),
        }
    }
}

} // verus!
