use vstd::prelude::*;
use crate::memory::{PAGE_SIZE, PhysicalAddress, VirtualAddress};
use crate::memory::memory_map::{
    MemoryMapEntry, USABLE, lemma_usable_entries_prefix, lemma_usable_entries_step, usable_entries,
};
use crate::utils::bitmap_btree::BitmapBinaryTree;
use crate::utils::bitutils::nth_bit_u8;
use super::align_up;
use super::buddy_allocator_bitmap::{
    ceil_div, div_ceil, first_holding, frames_in, is_first_holding, lemma_reserve_prefix, none_holding, reserve_size,
};

verus! {

/// A region of usable physical memory with the binary tree of its memory blocks.
pub struct MemoryRegion {
    /// The physical address of the start of the region
    pub region_start_address: PhysicalAddress,
    /// The size in bytes of the region
    pub region_size: usize,
    /// The total number of frames contained in the region
    pub region_frame_count: usize,
    /// A binary tree bitmap representing all memory blocks available in this region
    pub memory_blocks: BitmapBinaryTree,
}

impl MemoryRegion {
    /// The region covers the `size` bytes at `start`, and its tree has a leaf for each of
    /// its frames, every node clear.
    pub open spec fn describes(&self, start: PhysicalAddress, size: nat) -> bool {
        &&& self.region_start_address == start
        &&& self.region_size == size
        &&& self.region_frame_count == frames_in(size)
        &&& self.memory_blocks.wf()
        &&& self.memory_blocks.leaf_count() == self.region_frame_count
        &&& forall|i: int| 0 <= i < self.memory_blocks.node_count() ==> !#[trigger] self.memory_blocks.node(i)
    }

    /// Describes the region of `size` bytes at `start_address`; `memory_maps` holds the
    /// bitmap of its block tree, one leaf per frame.
    pub fn new(start_address: PhysicalAddress, size: usize, memory_maps: Vec<u8>) -> (r: Self)
        requires
            2 * ceil_div(size as nat, PAGE_SIZE as nat) - 1 <= memory_maps@.len() * 8,
        ensures
            r.region_start_address == start_address,
            r.region_size == size,
            r.region_frame_count == ceil_div(size as nat, PAGE_SIZE as nat),
            r.memory_blocks.wf(),
            r.memory_blocks.leaf_count() == r.region_frame_count,
            forall|i: int|
                0 <= i < r.memory_blocks.node_count() ==> r.memory_blocks.node(i) == nth_bit_u8(
                    memory_maps@[i / 8],
                    (i % 8) as u8,
                ),
    {
        let frame_count = div_ceil(size, PAGE_SIZE);
        let memory_blocks = BitmapBinaryTree::new(memory_maps, frame_count);
        Self { region_start_address: start_address, region_size: size, region_frame_count: frame_count, memory_blocks }
    }
}

/// The bytes that the block tree of a region of `frames` frames takes: a bit for each of its
/// nodes.
pub open spec fn tree_size(frames: nat) -> nat {
    ceil_div((2 * frames - 1) as nat, 8)
}

/// The bytes taken by the descriptors of `entries`, of `header` bytes each, each followed by
/// the block tree of its region.
pub open spec fn tree_layout_size(entries: Seq<MemoryMapEntry>, header: nat) -> nat
    decreases entries.len(),
{
    if entries.len() == 0 {
        0
    } else {
        tree_layout_size(entries.drop_last(), header) + header + tree_size(frames_in(entries.last().length as nat))
    }
}

pub proof fn lemma_tree_layout_prefix(entries: Seq<MemoryMapEntry>, header: nat, k: int)
    requires
        0 <= k <= entries.len(),
    ensures
        tree_layout_size(entries.take(k), header) <= tree_layout_size(entries, header),
    decreases entries.len(),
{
    if k == entries.len() {
        assert(entries.take(k) =~= entries);
    } else {
        lemma_tree_layout_prefix(entries.drop_last(), header, k);
        assert(entries.drop_last().take(k) =~= entries.take(k));
    }
}

proof fn lemma_zero_byte_has_no_bit(k: u8)
    ensures
        !nth_bit_u8(0u8, k),
{
    assert(((0u8 >> k) & 1u8) != 1u8) by (bit_vector);
}

/// The regions of usable memory, linked in the order of the memory map, with the number of
/// bytes handed out.
pub struct BuddyAllocator {
    /// The address of the descriptor of the first region
    pub first_region: VirtualAddress,
    /// The regions, in the order in which they are linked
    pub regions: Vec<MemoryRegion>,
    /// Where the descriptor of each region lies, its block tree right behind it
    pub region_addresses: Vec<VirtualAddress>,
    pub allocated_amount: usize,
}

impl BuddyAllocator {
    /// The allocator that `init` sets up for `map`, with descriptors of `header` bytes, when
    /// its metadata starts at `first_region`: one region per usable entry, in their order,
    /// each descriptor followed by the block tree of its region, nothing handed out.
    pub open spec fn lays_out(&self, map: Seq<MemoryMapEntry>, header: nat, first_region: VirtualAddress) -> bool {
        let entries = usable_entries(map);
        &&& self.first_region == first_region
        &&& self.allocated_amount == 0
        &&& self.regions@.len() == entries.len()
        &&& self.region_addresses@.len() == entries.len()
        &&& forall|k: int|
            0 <= k < entries.len() ==> (#[trigger] self.regions@[k]).describes(entries[k].base, entries[k].length as nat)
        &&& forall|k: int|
            0 <= k < entries.len() ==> #[trigger] self.region_addresses@[k] == first_region + tree_layout_size(
                entries.take(k),
                header,
            )
    }

    /// Sets up the allocator for the usable entries of `memory_regions`. Its metadata, a
    /// descriptor and the block tree of each region, goes to the first usable entry that can
    /// hold the reserve, from the first page boundary at or above that entry's base seen
    /// through `hhdm_offset`.
    pub fn init(memory_regions: &Vec<MemoryMapEntry>, hhdm_offset: u64) -> (r: Result<Self, &'static str>)
        requires
            forall|j: int|
                0 <= j < memory_regions@.len() && #[trigger] memory_regions@[j].entry_type == USABLE
                    ==> 1 <= memory_regions@[j].length <= usize::MAX,
            forall|j: int|
                #[trigger] is_first_holding(
                    memory_regions@,
                    reserve_size(usable_entries(memory_regions@), vstd::layout::size_of::<MemoryRegion>()),
                    j,
                ) ==> memory_regions@[j].base + hhdm_offset + PAGE_SIZE + tree_layout_size(
                    usable_entries(memory_regions@),
                    vstd::layout::size_of::<MemoryRegion>(),
                ) <= usize::MAX,
            reserve_size(usable_entries(memory_regions@), vstd::layout::size_of::<MemoryRegion>()) <= usize::MAX,
        ensures
            ({
                let header = vstd::layout::size_of::<MemoryRegion>();
                let reserve = reserve_size(usable_entries(memory_regions@), header);
                match r {
                    Ok(a) => exists|i: int|
                        #![trigger memory_regions@[i]]
                        is_first_holding(memory_regions@, reserve, i) && a.first_region % (PAGE_SIZE as u64) == 0
                            && memory_regions@[i].base + hhdm_offset <= a.first_region < memory_regions@[i].base
                            + hhdm_offset + PAGE_SIZE && a.lays_out(memory_regions@, header, a.first_region),
                    Err(e) => none_holding(memory_regions@, reserve) && e == "pmm: could not find a suitable memory region to hold the pmm",
                }
            }),
    {
        let header = core::mem::size_of::<MemoryRegion>();
        let ghost map = memory_regions@;
        let ghost h = header as nat;
        // Calculate how much memory will be necessary to accommodate the allocator
        let mut buffer_size: usize = 0;
        let mut i: usize = 0;
        while i < memory_regions.len()
            invariant
                i <= map.len(),
                map == memory_regions@,
                h == header,
                h == vstd::layout::size_of::<MemoryRegion>(),
                buffer_size == reserve_size(usable_entries(map.take(i as int)), h),
                reserve_size(usable_entries(map), h) <= usize::MAX,
                forall|j: int|
                    0 <= j < map.len() && #[trigger] map[j].entry_type == USABLE ==> map[j].length <= usize::MAX,
            decreases map.len() - i,
        {
            proof {
                lemma_usable_entries_step(map, i as int);
                lemma_usable_entries_prefix(map, i + 1);
                lemma_reserve_prefix(usable_entries(map), h, usable_entries(map.take(i + 1)).len() as int);
            }
            let entry = memory_regions[i];
            if entry.entry_type == USABLE {
                let frame_count = div_ceil(entry.length as usize, PAGE_SIZE);
                assert(usable_entries(map.take(i + 1)).drop_last() =~= usable_entries(map.take(i as int)));
                buffer_size = buffer_size + header + div_ceil(frame_count, 8);
            }
            i = i + 1;
        }
        proof {
            assert(map.take(map.len() as int) =~= map);
        }
        // Find an available region large enough to fit everything
        let found = first_holding(memory_regions, buffer_size as u64);
        let index = match found {
            Some(index) => index,
            None => {
                return Err("pmm: could not find a suitable memory region to hold the pmm");
            },
        };
        let containing_entry = memory_regions[index];
        let buffer_start = align_up((containing_entry.base + hhdm_offset) as usize, PAGE_SIZE);
        let first_region = buffer_start as u64;

        let mut current_buffer_start: u64 = first_region;
        let mut regions: Vec<MemoryRegion> = Vec::new();
        let mut region_addresses: Vec<VirtualAddress> = Vec::new();
        let ghost entries = usable_entries(map);
        let mut i: usize = 0;
        while i < memory_regions.len()
            invariant
                i <= map.len(),
                map == memory_regions@,
                h == header,
                entries == usable_entries(map),
                first_region + PAGE_SIZE <= containing_entry.base + hhdm_offset + 2 * PAGE_SIZE,
                containing_entry.base + hhdm_offset + PAGE_SIZE + tree_layout_size(entries, h) <= usize::MAX,
                current_buffer_start == first_region + tree_layout_size(usable_entries(map.take(i as int)), h),
                forall|j: int|
                    0 <= j < map.len() && #[trigger] map[j].entry_type == USABLE ==> 1 <= map[j].length <= usize::MAX,
                regions@.len() == usable_entries(map.take(i as int)).len(),
                region_addresses@.len() == regions@.len(),
                forall|k: int|
                    0 <= k < regions@.len() ==> (#[trigger] regions@[k]).describes(
                        usable_entries(map.take(i as int))[k].base,
                        usable_entries(map.take(i as int))[k].length as nat,
                    ),
                forall|k: int|
                    0 <= k < regions@.len() ==> #[trigger] region_addresses@[k] == first_region + tree_layout_size(
                        usable_entries(map.take(i as int)).take(k),
                        h,
                    ),
            decreases map.len() - i,
        {
            let ghost before = usable_entries(map.take(i as int));
            proof {
                lemma_usable_entries_step(map, i as int);
                lemma_usable_entries_prefix(map, i + 1);
                lemma_tree_layout_prefix(entries, h, usable_entries(map.take(i + 1)).len() as int);
            }
            let entry = memory_regions[i];
            if entry.entry_type == USABLE {
                let ghost after = usable_entries(map.take(i + 1));
                assert(after.drop_last() =~= before);
                assert(after =~= entries.take(after.len() as int));
                assert(after.last() == entry);
                let frame_count = div_ceil(entry.length as usize, PAGE_SIZE);
                proof {
                    assert(frame_count >= 1 && 2 * frame_count <= usize::MAX) by (nonlinear_arith)
                        requires
                            1 <= entry.length <= usize::MAX,
                            frame_count == (entry.length + PAGE_SIZE - 1) / (PAGE_SIZE as int),
                            usize::MAX >= 0xffff_ffff,
                    ;
                }
                let node_count = 2 * frame_count - 1;
                let tree_bytes = div_ceil(node_count, 8);
                proof {
                    assert(node_count <= tree_bytes * 8) by (nonlinear_arith)
                        requires
                            tree_bytes == (node_count + 8 - 1) / 8,
                    ;
                }
                let mut memory: Vec<u8> = Vec::new();
                while memory.len() < tree_bytes
                    invariant
                        memory@.len() <= tree_bytes,
                        forall|j: int| 0 <= j < memory@.len() ==> #[trigger] memory@[j] == 0,
                    decreases tree_bytes - memory@.len(),
                {
                    memory.push(0u8);
                }
                let ghost bytes = memory@;
                let region = MemoryRegion::new(entry.base, entry.length as usize, memory);
                proof {
                    assert forall|n: int| 0 <= n < region.memory_blocks.node_count() implies !#[trigger] region.memory_blocks.node(n) by {
                        assert(n / 8 < bytes.len()) by (nonlinear_arith)
                            requires
                                0 <= n < node_count,
                                node_count <= bytes.len() * 8,
                        ;
                        lemma_zero_byte_has_no_bit((n % 8) as u8);
                    }
                    assert forall|k: int| 0 <= k < regions@.len() implies before.take(k) =~= after.take(k) by {}
                    assert(after.take(before.len() as int) =~= before);
                    assert(tree_layout_size(after, h) == tree_layout_size(before, h) + h + tree_size(frame_count as nat));
                }
                let full_size = region.memory_blocks.get_full_size();
                region_addresses.push(current_buffer_start);
                current_buffer_start = current_buffer_start + header as u64 + full_size as u64;
                regions.push(region);
            }
            i = i + 1;
        }
        proof {
            assert(map.take(map.len() as int) =~= map);
        }
        Ok(BuddyAllocator { first_region, regions, region_addresses, allocated_amount: 0 })
    }
}

} // verus!
