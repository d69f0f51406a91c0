use vstd::prelude::*;
use crate::memory::{PAGE_SIZE, PhysicalAddress, VirtualAddress};
use crate::memory::memory_map::{
    MemoryMapEntry, USABLE, usable_entries, lemma_usable_entries_prefix, lemma_usable_entries_step,
};
use super::{align_up, Frame};
use crate::utils::bitutils::{nth_bit_u8, test_bit};
use super::buddy_allocator_bitmap::{
    ceil_div, div_ceil, frames_in, reserve_size, first_holding, is_first_holding, none_holding,
    lemma_reserve_prefix,
};

verus! {

/// The frames of one usable region, one bit each in a bitmap.
#[derive(Clone, Copy)]
pub struct PmmModule {
    /// The physical address of the start of the region
    pub start_address: PhysicalAddress,
    /// The size in bytes of the bitmap
    pub bitmap_size: usize,
    /// The number of frames in the region
    pub bitmap_entry_count: usize,
    /// The frame to hand out next, if one is known
    pub last_free: Option<usize>,
    /// The address of the bitmap
    pub bitmap: VirtualAddress,
    /// The address of the next module, if they are chained
    pub next: Option<VirtualAddress>,
}

/// The bytes a module's header takes in the memory that holds the modules: the six fields
/// above, two of them an `Option` of a word.
pub const PMM_MODULE_SIZE: usize = 64;

impl PmmModule {
    /// Describes the region of `size` bytes at `start_address`, with its bitmap at
    /// `memory_maps_start`; `bitmap_memory` is the memory there, whose bitmap bytes are
    /// cleared. No frame is known to be free yet.
    pub fn init(start_address: PhysicalAddress, size: usize, memory_maps_start: VirtualAddress, bitmap_memory: &mut Vec<u8>) -> (r: Self)
        requires
            old(bitmap_memory)@.len() >= ceil_div(ceil_div(size as nat, PAGE_SIZE as nat), 8),
        ensures
            r.start_address == start_address,
            r.bitmap_entry_count == ceil_div(size as nat, PAGE_SIZE as nat),
            r.bitmap_size == ceil_div(r.bitmap_entry_count as nat, 8),
            r.bitmap == memory_maps_start,
            r.last_free is None,
            r.next is None,
            final(bitmap_memory)@.len() == old(bitmap_memory)@.len(),
            forall|i: int| 0 <= i < r.bitmap_size ==> #[trigger] final(bitmap_memory)@[i] == 0,
            forall|i: int|
                r.bitmap_size <= i < old(bitmap_memory)@.len() ==> #[trigger] final(bitmap_memory)@[i]
                    == old(bitmap_memory)@[i],
    {
        let frame_count = div_ceil(size, PAGE_SIZE);
        let bitmap_size = div_ceil(frame_count, 8);
        let mut k: usize = 0;
        while k < bitmap_size
            invariant
                k <= bitmap_size <= bitmap_memory@.len(),
                bitmap_memory@.len() == old(bitmap_memory)@.len(),
                forall|j: int| 0 <= j < k ==> #[trigger] bitmap_memory@[j] == 0,
                forall|j: int| k <= j < bitmap_memory@.len() ==> #[trigger] bitmap_memory@[j] == old(bitmap_memory)@[j],
            decreases bitmap_size - k,
        {
            bitmap_memory.set(k, 0);
            k = k + 1;
        }
        PmmModule {
            start_address,
            bitmap_size,
            bitmap_entry_count: frame_count,
            bitmap: memory_maps_start,
            last_free: None,
            next: None,
        }
    }

    /// Hands out the frame recorded as free, if there is one: frame `last_free` of the region.
    /// When that frame is inside the region and its bit, in the bitmap bytes `bitmap`, is
    /// clear, the recorded frame becomes the one at twice its index; otherwise it stays.
    pub fn allocate_frame(&mut self, bitmap: &Vec<u8>) -> (r: Option<PhysicalAddress>)
        requires
            old(self).last_free matches Some(lf) ==> {
                &&& old(self).start_address + lf * PAGE_SIZE <= u64::MAX
                &&& lf < old(self).bitmap_entry_count ==> lf < 8 && lf / 8 < bitmap@.len()
            },
        ensures
            final(self).start_address == old(self).start_address,
            final(self).bitmap_size == old(self).bitmap_size,
            final(self).bitmap_entry_count == old(self).bitmap_entry_count,
            final(self).bitmap == old(self).bitmap,
            match old(self).last_free {
                None => r is None && final(self).last_free is None,
                Some(lf) => {
                    &&& r == Some((old(self).start_address + lf * PAGE_SIZE) as u64)
                    &&& final(self).last_free == if lf < old(self).bitmap_entry_count && !nth_bit_u8(
                        bitmap@[(lf / 8) as int],
                        lf as u8,
                    ) {
                        Some((2 * lf) as usize)
                    } else {
                        Some(lf)
                    }
                },
            },
    {
        match self.last_free {
            Some(last_free) => {
                let alloc = self.start_address + (last_free as u64) * (PAGE_SIZE as u64);
                let bit_base = last_free;
                if bit_base < self.bitmap_entry_count {
                    let byte_index = bit_base / 8;
                    if !test_bit(bitmap[byte_index], bit_base as u8) {
                        self.last_free = Some(bit_base + bit_base);
                    }
                }
                Some(alloc)
            },
            None => None,
        }
    }
}

/// A frame allocator over the usable regions of the memory map, one module per region.
pub struct StaticLinearAllocator {
    /// The modules, in the order in which they are linked
    pub modules: Vec<PmmModule>,
    /// The bitmap bytes of each module
    pub bitmaps: Vec<Vec<u8>>,
    /// The address of the first module
    pub root_module: VirtualAddress,
}

impl StaticLinearAllocator {
    /// The allocator that `init` sets up for `map`, with modules of `header` bytes, when its
    /// metadata starts at `buffer_start`: one module per usable entry, module `k` at
    /// `buffer_start + 2 * header * k`, its bitmap at the same address, all bitmaps cleared;
    /// each module links to the next one, the last to none.
    pub open spec fn lays_out(&self, map: Seq<MemoryMapEntry>, header: nat, buffer_start: VirtualAddress) -> bool {
        let entries = usable_entries(map);
        &&& self.root_module == buffer_start
        &&& self.modules@.len() == entries.len()
        &&& self.bitmaps@.len() == entries.len()
        &&& forall|k: int| 0 <= k < entries.len() ==> {
            let m = #[trigger] self.modules@[k];
            &&& m.start_address == entries[k].base
            &&& m.bitmap_entry_count == frames_in(entries[k].length as nat)
            &&& m.bitmap_size == ceil_div(m.bitmap_entry_count as nat, 8)
            &&& m.bitmap == buffer_start + 2 * header * k
            &&& m.last_free is None
            &&& m.next == if k + 1 < entries.len() {
                Some((buffer_start + 2 * header * (k + 1)) as u64)
            } else {
                None
            }
        }
        &&& forall|k: int| 0 <= k < entries.len() ==> (#[trigger] self.bitmaps@[k])@.len() == self.modules@[k].bitmap_size
        &&& forall|k: int, j: int|
            0 <= k < entries.len() && 0 <= j < self.bitmaps@[k]@.len() ==> #[trigger] self.bitmaps@[k]@[j] == 0
    }

    /// No module knows a free frame.
    pub open spec fn wf(&self) -> bool {
        &&& forall|k: int| 0 <= k < self.modules@.len() ==> (#[trigger] self.modules@[k]).last_free is None
        &&& self.bitmaps@.len() == self.modules@.len()
    }

    /// Sets up the allocator for the usable entries of `memory_regions`. Its modules go to the
    /// first usable entry that can hold the reserve, from the first page boundary at or above
    /// that entry's base seen through `hhdm_offset`.
    pub fn init(memory_regions: &Vec<MemoryMapEntry>, hhdm_offset: u64) -> (r: Result<Self, &'static str>)
        requires
            forall|j: int|
                0 <= j < memory_regions@.len() && #[trigger] memory_regions@[j].entry_type == USABLE
                    ==> memory_regions@[j].length <= usize::MAX,
            forall|j: int|
                #[trigger] is_first_holding(
                    memory_regions@,
                    reserve_size(usable_entries(memory_regions@), (2 * PMM_MODULE_SIZE) as nat),
                    j,
                ) ==> memory_regions@[j].base + hhdm_offset + PAGE_SIZE + 2 * PMM_MODULE_SIZE * memory_regions@.len()
                    <= usize::MAX,
            reserve_size(usable_entries(memory_regions@), (2 * PMM_MODULE_SIZE) as nat) <= usize::MAX,
        ensures
            ({
                let header = PMM_MODULE_SIZE as nat;
                let reserve = reserve_size(usable_entries(memory_regions@), 2 * header);
                match r {
                    Ok(a) => exists|i: int|
                        #![trigger memory_regions@[i]]
                        is_first_holding(memory_regions@, reserve, i) && a.root_module % (PAGE_SIZE as u64) == 0
                            && memory_regions@[i].base + hhdm_offset <= a.root_module < memory_regions@[i].base
                            + hhdm_offset + PAGE_SIZE && a.lays_out(memory_regions@, header, a.root_module) && a.wf(),
                    Err(e) => none_holding(memory_regions@, reserve) && e == "pmm: could not find a suitable memory region to hold the pmm",
                }
            }),
    {
        let header = PMM_MODULE_SIZE;
        let ghost map = memory_regions@;
        let ghost h = header as nat;
        // Calculate how much memory will be necessary to accommodate the allocator
        let mut buffer_size: usize = 0;
        let mut i: usize = 0;
        while i < memory_regions.len()
            invariant
                i <= map.len(),
                map == memory_regions@,
                h == header,
                buffer_size == reserve_size(usable_entries(map.take(i as int)), 2 * h),
                reserve_size(usable_entries(map), 2 * h) <= usize::MAX,
                forall|j: int|
                    0 <= j < map.len() && #[trigger] map[j].entry_type == USABLE ==> map[j].length <= usize::MAX,
            decreases map.len() - i,
        {
            proof {
                lemma_usable_entries_step(map, i as int);
                lemma_usable_entries_prefix(map, i + 1);
                lemma_reserve_prefix(usable_entries(map), 2 * h, usable_entries(map.take(i + 1)).len() as int);
            }
            let entry = memory_regions[i];
            if entry.entry_type == USABLE {
                let frame_count = div_ceil(entry.length as usize, PAGE_SIZE);
                assert(usable_entries(map.take(i + 1)).drop_last() =~= usable_entries(map.take(i as int)));
                buffer_size = buffer_size + 2 * header + div_ceil(frame_count, 8);
            }
            i = i + 1;
        }
        proof {
            assert(map.take(map.len() as int) =~= map);
        }
        // Find an available region large enough to fit everything
        let index = match first_holding(memory_regions, buffer_size as u64) {
            Some(index) => index,
            None => {
                return Err("pmm: could not find a suitable memory region to hold the pmm");
            },
        };
        let containing_entry = memory_regions[index];
        let buffer_start = align_up((containing_entry.base + hhdm_offset) as usize, PAGE_SIZE) as u64;
        let mut meta_buffer: u64 = buffer_start;
        // Create modules for all regions
        let mut modules: Vec<PmmModule> = Vec::new();
        let mut bitmaps: Vec<Vec<u8>> = Vec::new();
        let mut i: usize = 0;
        while i < memory_regions.len()
            invariant
                i <= map.len(),
                map == memory_regions@,
                h == header,
                buffer_start + 2 * h * map.len() <= containing_entry.base + hhdm_offset + PAGE_SIZE + 2 * h * map.len() <= usize::MAX,
                modules@.len() == usable_entries(map.take(i as int)).len() <= i,
                meta_buffer == buffer_start + 2 * h * modules@.len(),
                bitmaps@.len() == modules@.len(),
                forall|j: int|
                    0 <= j < map.len() && #[trigger] map[j].entry_type == USABLE ==> map[j].length <= usize::MAX,
                forall|k: int| 0 <= k < modules@.len() ==> {
                    let m = #[trigger] modules@[k];
                    &&& m.start_address == usable_entries(map.take(i as int))[k].base
                    &&& m.bitmap_entry_count == frames_in(usable_entries(map.take(i as int))[k].length as nat)
                    &&& m.bitmap_size == ceil_div(m.bitmap_entry_count as nat, 8)
                    &&& m.bitmap == buffer_start + 2 * h * k
                    &&& m.last_free is None
                    &&& m.next == if k + 1 < modules@.len() {
                        Some((buffer_start + 2 * h * (k + 1)) as u64)
                    } else {
                        None
                    }
                },
                forall|k: int| 0 <= k < modules@.len() ==> (#[trigger] bitmaps@[k])@.len() == modules@[k].bitmap_size,
                forall|k: int, j: int|
                    0 <= k < modules@.len() && 0 <= j < bitmaps@[k]@.len() ==> #[trigger] bitmaps@[k]@[j] == 0,
            decreases map.len() - i,
        {
            proof {
                lemma_usable_entries_step(map, i as int);
            }
            let entry = memory_regions[i];
            if entry.entry_type == USABLE {
                let fc = div_ceil(entry.length as usize, PAGE_SIZE);
                let size = div_ceil(fc, 8);
                let mut memory: Vec<u8> = vec![0u8; size];
                let module = PmmModule::init(entry.base, entry.length as usize, meta_buffer, &mut memory);
                proof {
                    assert(2 * h * (modules@.len() + 1) <= 2 * h * map.len()) by (nonlinear_arith)
                        requires modules@.len() + 1 <= map.len();
                    assert(2 * h * (modules@.len() + 1) == 2 * h * modules@.len() + 2 * h) by (nonlinear_arith);
                }
                let ghost before = modules@;
                if modules.len() > 0 {
                    let last = modules.len() - 1;
                    let mut previous = modules[last];
                    previous.next = Some(meta_buffer);
                    modules.set(last, previous);
                    assert(meta_buffer == (buffer_start + 2 * h * (last + 1)) as u64);
                }
                assert(forall|k: int| 0 <= k < before.len() - 1 ==> #[trigger] modules@[k] == before[k]);
                meta_buffer = meta_buffer + 2 * header as u64;
                modules.push(module);
                bitmaps.push(memory);
            }
            i = i + 1;
        }
        proof {
            assert(map.take(map.len() as int) =~= map);
        }
        Ok(StaticLinearAllocator { modules, bitmaps, root_module: buffer_start })
    }

    /// Asks each module in turn for a frame; as no module ever knows a free frame, this fails.
    pub fn allocate_frame(&mut self) -> (r: Result<Frame, &'static str>)
        requires
            old(self).wf(),
        ensures
            r == Err::<Frame, &'static str>("pmm: could not allocate frame (memory full)"),
            *final(self) == *old(self),
    {
        let mut k: usize = 0;
        while k < self.modules.len()
            invariant
                self.wf(),
                *self == *old(self),
                k <= self.modules@.len(),
            decreases self.modules@.len() - k,
        {
            let mut module = self.modules[k];
            let alloc = module.allocate_frame(&self.bitmaps[k]);
            // Return the frame if it was found
            if let Some(alloc) = alloc {
                return Ok(Frame::containing_address(alloc));
            }
            k = k + 1;
        }
        Err("pmm: could not allocate frame (memory full)")
    }
}

} // verus!
