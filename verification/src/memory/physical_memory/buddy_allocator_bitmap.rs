use vstd::prelude::*;
use crate::memory::{PAGE_SIZE, PhysicalAddress, VirtualAddress};
use crate::memory::memory_map::{
    MemoryMapEntry, USABLE, usable_entries, lemma_usable_entries_prefix, lemma_usable_entries_step,
};
use super::align_up;

verus! {

/// Maximum allocation size, this allocator cannot allocate blocks larger than 2^MAX_ORDER pages
pub const MAX_ORDER: usize = 10;

/// `2^k`.
pub open spec fn two_to(k: nat) -> nat
    decreases k,
{
    if k == 0 {
        1
    } else {
        2 * two_to((k - 1) as nat)
    }
}

/// `a / b` rounded up.
pub open spec fn ceil_div(a: nat, b: nat) -> nat {
    ((a + b - 1) / (b as int)) as nat
}

/// The size in bytes of the buddy bitmap of order `order` for `frame_count` frames: one bit per
/// block of `2^order` frames, whole bytes only.
pub open spec fn order_size(frame_count: nat, order: nat) -> nat {
    ceil_div(frame_count, 8) / two_to(order)
}

/// Where the bitmap of order `order` starts, relative to the first bitmap: the bitmaps of
/// the lower orders come first, back to back.
pub open spec fn order_offset(frame_count: nat, order: nat) -> nat
    decreases order,
{
    if order == 0 {
        0
    } else {
        order_offset(frame_count, (order - 1) as nat) + order_size(frame_count, (order - 1) as nat)
    }
}

/// The size in bytes of all the bitmaps for `frame_count` frames.
pub open spec fn total_bitmap_size(frame_count: nat) -> nat {
    order_offset(frame_count, (MAX_ORDER + 1) as nat)
}

/// `a / b` rounded up is the fewest blocks of `b` that cover `a`: they cover it, and one
/// block fewer would not (the cover exceeds `a` by less than a block).
pub proof fn lemma_ceil_div_is_least_cover(a: nat, b: nat)
    requires
        b > 0,
    ensures
        ceil_div(a, b) * b >= a,
        ceil_div(a, b) * b < a + b,
{
    let q = (a + b - 1) / (b as int);
    vstd::arithmetic::div_mod::lemma_fundamental_div_mod((a + b - 1) as int, b as int);
    assert(q >= 0) by {
        vstd::arithmetic::div_mod::lemma_div_pos_is_pos((a + b - 1) as int, b as int);
    }
    assert(ceil_div(a, b) == q);
    assert(q * b == b * q) by (nonlinear_arith);
}

/// `two_to` is the power of two of vstd's arithmetic library.
pub proof fn lemma_two_to_is_pow2(k: nat)
    ensures
        two_to(k) == vstd::arithmetic::power2::pow2(k),
    decreases k,
{
    if k == 0 {
        vstd::arithmetic::power2::lemma2_to64();
    } else {
        lemma_two_to_is_pow2((k - 1) as nat);
        vstd::arithmetic::power2::lemma_pow2_unfold(k);
    }
}

pub proof fn lemma_two_to_positive(k: nat)
    ensures
        two_to(k) >= 1,
    decreases k,
{
    if k > 0 {
        lemma_two_to_positive((k - 1) as nat);
    }
}

/// Each bitmap is at most half the size of the one below it.
pub proof fn lemma_order_size_halves(frame_count: nat, k: nat)
    ensures
        order_size(frame_count, k + 1) == order_size(frame_count, k) / 2,
        2 * order_size(frame_count, k + 1) <= order_size(frame_count, k),
{
    lemma_two_to_positive(k);
    let b = ceil_div(frame_count, 8) as int;
    vstd::arithmetic::div_mod::lemma_div_denominator(b, two_to(k) as int, 2);
    assert(two_to(k) * 2 == two_to(k + 1));
}

/// The bitmaps together take at most twice the size of the order-0 bitmap.
pub proof fn lemma_order_offset_bound(frame_count: nat, k: nat)
    ensures
        order_offset(frame_count, k) + 2 * order_size(frame_count, k) <= 2 * ceil_div(frame_count, 8),
    decreases k,
{
    if k > 0 {
        lemma_order_offset_bound(frame_count, (k - 1) as nat);
        lemma_order_size_halves(frame_count, (k - 1) as nat);
    }
}

/// Once a bitmap is empty, all the higher-order ones are empty too.
pub proof fn lemma_order_size_zero_after(frame_count: nat, k: nat, j: nat)
    requires
        order_size(frame_count, k) == 0,
        k <= j,
    ensures
        order_size(frame_count, j) == 0,
        order_offset(frame_count, j) == order_offset(frame_count, k),
    decreases j - k,
{
    if j > k {
        lemma_order_size_zero_after(frame_count, k, (j - 1) as nat);
        lemma_order_size_halves(frame_count, (j - 1) as nat);
    }
}

/// Every bitmap below the last non-empty one ends within the bitmaps' total size.
pub proof fn lemma_order_size_zero_or_offset_below_total(frame_count: nat, k: nat)
    requires
        k <= MAX_ORDER + 1,
    ensures
        order_offset(frame_count, k) <= total_bitmap_size(frame_count),
    decreases MAX_ORDER + 1 - k,
{
    if k < MAX_ORDER + 1 {
        lemma_order_size_zero_or_offset_below_total(frame_count, k + 1);
    }
}

/// `2^order`.
pub(crate) fn power_of_two(order: usize) -> (r: usize)
    requires
        order <= MAX_ORDER,
    ensures
        r == two_to(order as nat),
        r == vstd::arithmetic::power2::pow2(order as nat),
{
    proof {
        lemma_two_to_is_pow2(order as nat);
    }
    let mut r: usize = 1;
    let mut i: usize = 0;
    proof {
        reveal_with_fuel(two_to, 11);
        assert(two_to(MAX_ORDER as nat) == 1024);
    }
    while i < order
        invariant
            i <= order <= MAX_ORDER,
            r == two_to(i as nat),
            r <= 1024,
            two_to(MAX_ORDER as nat) == 1024,
        decreases order - i,
    {
        r = r * 2;
        i = i + 1;
        proof {
            assert(two_to(i as nat) == 2 * two_to((i - 1) as nat));
            assert(two_to(i as nat) <= two_to(MAX_ORDER as nat)) by {
                lemma_two_to_monotonic(i as nat, MAX_ORDER as nat);
            }
        }
    }
    r
}

pub proof fn lemma_two_to_monotonic(a: nat, b: nat)
    requires
        a <= b,
    ensures
        two_to(a) <= two_to(b),
    decreases b - a,
{
    if a < b {
        lemma_two_to_monotonic(a, (b - 1) as nat);
        lemma_two_to_positive((b - 1) as nat);
    }
}

/// `a / b` rounded up.
pub fn div_ceil(a: usize, b: usize) -> (r: usize)
    requires
        b > 0,
    ensures
        r == ceil_div(a as nat, b as nat),
        r * b >= a,
        r * b < a + b,
{
    proof {
        lemma_ceil_div_is_least_cover(a as nat, b as nat);
    }
    let q = a / b;
    if a % b != 0 {
        proof {
            vstd::arithmetic::div_mod::lemma_div_is_ordered_by_denominator(a as int, 2, b as int);
        }
        assert(q < usize::MAX);
    }
    let r = if a % b != 0 {
        q + 1
    } else {
        q
    };
    proof {
        vstd::arithmetic::div_mod::lemma_fundamental_div_mod(a as int, b as int);
        vstd::arithmetic::div_mod::lemma_fundamental_div_mod((a + b - 1) as int, b as int);
        assert(r == (a + b - 1) / (b as int)) by (nonlinear_arith)
            requires
                b > 0,
                a == b * q + a % b,
                0 <= a % b < b,
                (a + b - 1) == b * ((a + b - 1) / (b as int)) + (a + b - 1) % (b as int),
                0 <= (a + b - 1) % (b as int) < b,
                r == if a % b != 0 {
                    q + 1
                } else {
                    q as int
                },
        ;
    }
    r
}

/// The bytes a region's header takes in the memory that holds the regions: five words, an
/// `Option` of a word per order, and the reference to the next region.
pub const MEMORY_REGION_SIZE: usize = 224;

/// A region of usable physical memory, with the buddy bitmaps that track its blocks.
pub struct MemoryRegion {
    /// The physical address of the start of the region
    pub region_start_address: PhysicalAddress,
    /// The size in bytes of the region
    pub region_size: usize,
    /// The total number of frames contained in the region
    pub region_frame_count: usize,
    /// The total size in bytes of all the buddy bitmaps representing the region.
    pub bitmap_size: usize,
    /// The address of the start of the bitmaps
    pub bitmap_start: VirtualAddress,
    /// The address of the start of each buddy bitmap, for the orders whose bitmap is not empty
    pub bitmaps: [Option<VirtualAddress>; 11],
}

impl MemoryRegion {
    /// `self` describes the region of `size` bytes at `start_address`, with its bitmaps back to
    /// back from `memory_maps_start`.
    pub open spec fn describes(&self, start_address: PhysicalAddress, size: nat, memory_maps_start: VirtualAddress) -> bool {
        &&& self.region_start_address == start_address
        &&& self.region_size == size
        &&& self.region_frame_count == ceil_div(size, PAGE_SIZE as nat)
        &&& self.bitmap_size == total_bitmap_size(self.region_frame_count as nat)
        &&& self.bitmap_start == memory_maps_start
        &&& forall|i: int|
            0 <= i <= MAX_ORDER ==> #[trigger] self.bitmaps@[i] == if order_size(self.region_frame_count as nat, i as nat) > 0 {
                Some((memory_maps_start + order_offset(self.region_frame_count as nat, i as nat)) as u64)
            } else {
                None
            }
    }

    /// The size in bytes of the bitmap of order `order` for `frame_count` frames.
    pub fn order_bitmap_size(frame_count: usize, order: usize) -> (r: usize)
        requires
            order <= MAX_ORDER,
        ensures
            r == order_size(frame_count as nat, order as nat),
    {
        let bytes = div_ceil(frame_count, 8);
        let divisor = power_of_two(order);
        proof {
            lemma_two_to_positive(order as nat);
        }
        bytes / divisor
    }

    /// The address of the bitmap of order `order`, when the bitmaps start at `base_address`.
    pub fn order_bitmap_address(base_address: VirtualAddress, frame_count: usize, order: usize) -> (r: VirtualAddress)
        requires
            order <= MAX_ORDER + 1,
            base_address + order_offset(frame_count as nat, order as nat) <= u64::MAX,
        ensures
            r == base_address + order_offset(frame_count as nat, order as nat),
    {
        let mut offset: usize = 0;
        let mut i: usize = 0;
        while i < order
            invariant
                i <= order <= MAX_ORDER + 1,
                offset == order_offset(frame_count as nat, i as nat),
            decreases order - i,
        {
            proof {
                lemma_order_offset_bound(frame_count as nat, i as nat);
                assert(ceil_div(frame_count as nat, 8) <= frame_count / 8 + 1);
            }
            offset = offset + Self::order_bitmap_size(frame_count, i);
            i = i + 1;
        }
        proof {
            lemma_order_offset_bound(frame_count as nat, order as nat);
        }
        base_address + (offset as u64)
    }

    /// Describes the region of `size` bytes at `start_address`, placing its bitmaps back to
    /// back at `memory_maps_start`; `bitmap_memory` is the memory there, whose bitmap bytes
    /// are cleared.
    pub fn new(start_address: PhysicalAddress, size: usize, memory_maps_start: VirtualAddress, bitmap_memory: &mut Vec<u8>) -> (r: MemoryRegion)
        requires
            memory_maps_start + 2 * ceil_div(ceil_div(size as nat, PAGE_SIZE as nat), 8) <= u64::MAX,
            old(bitmap_memory)@.len() >= total_bitmap_size(ceil_div(size as nat, PAGE_SIZE as nat)),
        ensures
            r.describes(start_address, size as nat, memory_maps_start),
            final(bitmap_memory)@.len() == old(bitmap_memory)@.len(),
            forall|i: int| 0 <= i < r.bitmap_size ==> #[trigger] final(bitmap_memory)@[i] == 0,
            forall|i: int|
                r.bitmap_size <= i < old(bitmap_memory)@.len() ==> #[trigger] final(bitmap_memory)@[i]
                    == old(bitmap_memory)@[i],
    {
        let frame_count = div_ceil(size, PAGE_SIZE);
        let ghost fc = frame_count as nat;
        proof {
            lemma_order_offset_bound(fc, (MAX_ORDER + 1) as nat);
        }
        let mut bitmap_size: usize = 0;
        let mut order: usize = 0;
        while order <= MAX_ORDER
            invariant
                order <= MAX_ORDER + 1,
                fc == frame_count,
                bitmap_size == order_offset(fc, order as nat),
                order_offset(fc, (MAX_ORDER + 1) as nat) <= 2 * ceil_div(fc, 8),
                ceil_div(fc, 8) <= fc / 8 + 1,
            decreases MAX_ORDER + 1 - order,
        {
            proof {
                lemma_order_offset_bound(fc, order as nat);
                lemma_order_offset_bound(fc, (order + 1) as nat);
            }
            bitmap_size = bitmap_size + Self::order_bitmap_size(frame_count, order);
            order = order + 1;
        }
        let mut bitmaps: [Option<VirtualAddress>; 11] = [None; 11];
        let mut i: usize = 0;
        let ghost end_order: nat = (MAX_ORDER + 1) as nat;
        while i <= MAX_ORDER
            invariant
                i <= MAX_ORDER + 1,
                fc == frame_count,
                bitmap_size == total_bitmap_size(fc),
                memory_maps_start + 2 * ceil_div(fc, 8) <= u64::MAX,
                total_bitmap_size(fc) <= 2 * ceil_div(fc, 8),
                bitmap_memory@.len() == old(bitmap_memory)@.len(),
                bitmap_memory@.len() >= total_bitmap_size(fc),
                forall|j: int| 0 <= j < order_offset(fc, i as nat) ==> #[trigger] bitmap_memory@[j] == 0,
                forall|j: int|
                    order_offset(fc, i as nat) <= j < bitmap_memory@.len() ==> #[trigger] bitmap_memory@[j]
                        == old(bitmap_memory)@[j],
                forall|j: int|
                    0 <= j < i ==> #[trigger] bitmaps@[j] == Some(
                        (memory_maps_start + order_offset(fc, j as nat)) as u64,
                    ),
                forall|j: nat| j < i ==> #[trigger] order_size(fc, j) > 0,
                forall|j: int| i <= j <= MAX_ORDER ==> #[trigger] bitmaps@[j] is None,
            ensures
                i <= MAX_ORDER + 1,
                i <= MAX_ORDER ==> order_size(fc, i as nat) == 0,
                forall|j: int| 0 <= j < order_offset(fc, i as nat) ==> #[trigger] bitmap_memory@[j] == 0,
                forall|j: int|
                    order_offset(fc, i as nat) <= j < bitmap_memory@.len() ==> #[trigger] bitmap_memory@[j]
                        == old(bitmap_memory)@[j],
                forall|j: int|
                    0 <= j < i ==> #[trigger] bitmaps@[j] == Some(
                        (memory_maps_start + order_offset(fc, j as nat)) as u64,
                    ),
                forall|j: nat| j < i ==> #[trigger] order_size(fc, j) > 0,
                forall|j: int| i <= j <= MAX_ORDER ==> #[trigger] bitmaps@[j] is None,
            decreases MAX_ORDER + 1 - i,
        {
            let order_size_i = Self::order_bitmap_size(frame_count, i);
            if order_size_i == 0 {
                break;
            }
            proof {
                lemma_order_offset_bound(fc, i as nat);
                lemma_order_offset_bound(fc, (i + 1) as nat);
                lemma_order_size_zero_or_offset_below_total(fc, (i + 1) as nat);
            }
            // Find address
            let bitmap_address = Self::order_bitmap_address(memory_maps_start, frame_count, i);
            bitmaps[i] = Some(bitmap_address);
            assert(order_size(fc, i as nat) > 0);
            // Set all bits to 0
            let offset = (bitmap_address - memory_maps_start) as usize;
            let mut k: usize = 0;
            let memory_len = bitmap_memory.len();
            while k < order_size_i
                invariant
                    memory_len == bitmap_memory@.len(),
                    k <= order_size_i,
                    offset == order_offset(fc, i as nat),
                    order_size_i == order_size(fc, i as nat),
                    offset + order_size_i <= bitmap_memory@.len(),
                    offset + order_size_i <= 2 * ceil_div(fc, 8),
                    ceil_div(fc, 8) <= fc / 8 + 1,
                    bitmap_memory@.len() == old(bitmap_memory)@.len(),
                    forall|j: int| 0 <= j < offset + k ==> #[trigger] bitmap_memory@[j] == 0,
                    forall|j: int|
                        offset + k <= j < bitmap_memory@.len() ==> #[trigger] bitmap_memory@[j]
                            == old(bitmap_memory)@[j],
                decreases order_size_i - k,
            {
                assert(offset + k < bitmap_memory@.len());
                bitmap_memory.set(offset + k, 0);
                k = k + 1;
            }
            i = i + 1;
        }
        proof {
            if i <= MAX_ORDER {
                lemma_order_size_zero_after(fc, i as nat, end_order);
            }
            assert forall|j: int| 0 <= j <= MAX_ORDER implies #[trigger] bitmaps@[j] == if order_size(fc, j as nat) > 0 {
                Some((memory_maps_start + order_offset(fc, j as nat)) as u64)
            } else {
                None
            } by {
                if j >= i {
                    lemma_order_size_zero_after(fc, i as nat, j as nat);
                }
            }
        }
        Self {
            region_start_address: start_address,
            region_size: size,
            bitmap_start: memory_maps_start,
            bitmap_size,
            region_frame_count: frame_count,
            bitmaps,
        }
    }
}

/// The number of frames that `length` bytes span.
pub open spec fn frames_in(length: nat) -> nat {
    ceil_div(length, PAGE_SIZE as nat)
}

/// The memory that the allocator sets aside for `entries`: for each, `per_entry` bytes and
/// one bit per frame.
pub open spec fn reserve_size(entries: Seq<MemoryMapEntry>, per_entry: nat) -> nat
    decreases entries.len(),
{
    if entries.len() == 0 {
        0
    } else {
        reserve_size(entries.drop_last(), per_entry) + per_entry + ceil_div(frames_in(entries.last().length as nat), 8)
    }
}

/// The bytes taken by the descriptors of `entries`, of `header` bytes each, each followed by
/// the bitmaps of its region.
pub open spec fn layout_size(entries: Seq<MemoryMapEntry>, header: nat) -> nat
    decreases entries.len(),
{
    if entries.len() == 0 {
        0
    } else {
        layout_size(entries.drop_last(), header) + header + total_bitmap_size(frames_in(entries.last().length as nat))
    }
}

/// A bound on `layout_size` that does not depend on how the bitmaps shrink with the order.
pub open spec fn layout_bound(entries: Seq<MemoryMapEntry>, header: nat) -> nat
    decreases entries.len(),
{
    if entries.len() == 0 {
        0
    } else {
        layout_bound(entries.drop_last(), header) + header + 2 * ceil_div(frames_in(entries.last().length as nat), 8)
    }
}

pub proof fn lemma_layout_below_bound(entries: Seq<MemoryMapEntry>, header: nat, k: int)
    requires
        0 <= k <= entries.len(),
    ensures
        layout_size(entries.take(k), header) <= layout_bound(entries.take(k), header),
        layout_bound(entries.take(k), header) <= layout_bound(entries, header),
    decreases entries.len(),
{
    if entries.len() > 0 {
        let fc = frames_in(entries.last().length as nat);
        lemma_order_offset_bound(fc, (MAX_ORDER + 1) as nat);
        if k == entries.len() {
            assert(entries.take(k) =~= entries);
            lemma_layout_below_bound(entries.drop_last(), header, k - 1);
            assert(entries.drop_last().take(k - 1) =~= entries.drop_last());
        } else {
            lemma_layout_below_bound(entries.drop_last(), header, k);
            assert(entries.drop_last().take(k) =~= entries.take(k));
        }
    } else {
        assert(entries.take(k) =~= entries);
    }
}

/// `i` is the first entry of `map` that is usable and holds at least `size` bytes.
pub open spec fn is_first_holding(map: Seq<MemoryMapEntry>, size: nat, i: int) -> bool {
    &&& 0 <= i < map.len()
    &&& map[i].entry_type == USABLE && map[i].length >= size
    &&& forall|j: int| 0 <= j < i ==> !(#[trigger] map[j].entry_type == USABLE && map[j].length >= size)
}

/// No usable entry of `map` holds `size` bytes.
pub open spec fn none_holding(map: Seq<MemoryMapEntry>, size: nat) -> bool {
    forall|j: int| 0 <= j < map.len() ==> !(#[trigger] map[j].entry_type == USABLE && map[j].length >= size)
}

/// The index of the first entry of `map` that is usable and holds at least `size` bytes.
pub fn first_holding(map: &Vec<MemoryMapEntry>, size: u64) -> (r: Option<usize>)
    ensures
        match r {
            Some(i) => is_first_holding(map@, size as nat, i as int),
            None => none_holding(map@, size as nat),
        },
{
    let mut i: usize = 0;
    while i < map.len()
        invariant
            i <= map@.len(),
            forall|j: int| 0 <= j < i ==> !(#[trigger] map@[j].entry_type == USABLE && map@[j].length >= size),
        decreases map@.len() - i,
    {
        if map[i].entry_type == USABLE && map[i].length >= size {
            return Some(i);
        }
        i = i + 1;
    }
    None
}

/// The regions of usable memory, linked in the order of the memory map, each described by a
/// descriptor followed by its bitmaps.
pub struct BuddyAllocator {
    /// The address of the descriptor of the first region
    pub first_region: VirtualAddress,
    /// The regions, in the order in which they are linked
    pub regions: Vec<MemoryRegion>,
    /// The bitmap bytes of each region
    pub bitmaps: Vec<Vec<u8>>,
}

impl BuddyAllocator {
    /// The allocator that `init` sets up for `map`, with descriptors of `header` bytes, when
    /// its metadata starts at `first_region`: one region per usable entry, each descriptor
    /// followed by the bitmaps of its region, all bitmaps cleared.
    pub open spec fn lays_out(&self, map: Seq<MemoryMapEntry>, header: nat, first_region: VirtualAddress) -> bool {
        let entries = usable_entries(map);
        &&& self.first_region == first_region
        &&& self.regions@.len() == entries.len()
        &&& self.bitmaps@.len() == entries.len()
        &&& forall|k: int|
            0 <= k < entries.len() ==> (#[trigger] self.regions@[k]).describes(
                entries[k].base,
                entries[k].length as nat,
                (first_region + layout_size(entries.take(k), header) + header) as u64,
            )
        &&& forall|k: int|
            0 <= k < entries.len() ==> (#[trigger] self.bitmaps@[k])@.len() == self.regions@[k].bitmap_size
        &&& forall|k: int, j: int|
            0 <= k < entries.len() && 0 <= j < self.bitmaps@[k]@.len() ==> #[trigger] self.bitmaps@[k]@[j] == 0
    }

    /// Sets up the allocator for the usable entries of `memory_regions`. Its metadata, a
    /// descriptor and the bitmaps of each region, goes to the first usable entry that can
    /// hold the reserve, from the first page boundary at or above that entry's base seen
    /// through `hhdm_offset`.
    pub fn init(memory_regions: &Vec<MemoryMapEntry>, hhdm_offset: u64) -> (r: Result<Self, &'static str>)
        requires
            forall|j: int|
                0 <= j < memory_regions@.len() && #[trigger] memory_regions@[j].entry_type == USABLE
                    ==> memory_regions@[j].length <= usize::MAX,
            forall|j: int|
                #[trigger] is_first_holding(
                    memory_regions@,
                    reserve_size(usable_entries(memory_regions@), 2 * (MEMORY_REGION_SIZE as nat)),
                    j,
                ) ==> memory_regions@[j].base + hhdm_offset + PAGE_SIZE + layout_bound(
                    usable_entries(memory_regions@),
                    (MEMORY_REGION_SIZE as nat),
                ) <= usize::MAX,
            reserve_size(usable_entries(memory_regions@), 2 * (MEMORY_REGION_SIZE as nat)) <= usize::MAX,
        ensures
            ({
                let header = (MEMORY_REGION_SIZE as nat);
                let reserve = reserve_size(usable_entries(memory_regions@), 2 * header);
                match r {
                    Ok(a) => exists|i: int|
                        #![trigger memory_regions@[i]]
                        is_first_holding(memory_regions@, reserve, i) && a.first_region % (PAGE_SIZE as u64) == 0
                            && memory_regions@[i].base + hhdm_offset <= a.first_region < memory_regions@[i].base
                            + hhdm_offset + PAGE_SIZE && a.lays_out(memory_regions@, header, a.first_region),
                    Err(e) => none_holding(memory_regions@, reserve) && e == "pmm: could not find a suitable memory region to hold the pmm",
                }
            }),
    {
        let header = MEMORY_REGION_SIZE;
        let ghost map = memory_regions@;
        let ghost h = header as nat;
        // Calculate how much memory will be necessary to accommodate the allocator
        let mut buffer_size: usize = 0;
        let mut i: usize = 0;
        while i < memory_regions.len()
            invariant
                i <= map.len(),
                map == memory_regions@,
                h == header,
                h == (MEMORY_REGION_SIZE as nat),
                buffer_size == reserve_size(usable_entries(map.take(i as int)), 2 * h),
                reserve_size(usable_entries(map), 2 * h) <= usize::MAX,
                forall|j: int|
                    0 <= j < map.len() && #[trigger] map[j].entry_type == USABLE ==> map[j].length <= usize::MAX,
            decreases map.len() - i,
        {
            proof {
                lemma_usable_entries_step(map, i as int);
                lemma_usable_entries_prefix(map, i + 1);
                lemma_reserve_prefix(usable_entries(map), 2 * h, usable_entries(map.take(i + 1)).len() as int);
            }
            let entry = memory_regions[i];
            if entry.entry_type == USABLE {
                let frame_count = div_ceil(entry.length as usize, PAGE_SIZE);
                assert(usable_entries(map.take(i + 1)).drop_last() =~= usable_entries(map.take(i as int)));
                buffer_size = buffer_size + 2 * header + div_ceil(frame_count, 8);
            }
            i = i + 1;
        }
        proof {
            assert(map.take(map.len() as int) =~= map);
        }
        // Find an available region large enough to accommodate everything
        let found = first_holding(memory_regions, buffer_size as u64);
        let index = match found {
            Some(index) => index,
            None => {
                return Err("pmm: could not find a suitable memory region to hold the pmm");
            },
        };
        let containing_entry = memory_regions[index];
        let buffer_start = align_up((containing_entry.base + hhdm_offset) as usize, PAGE_SIZE);
        let first_region = buffer_start as u64;

        let mut current_buffer_start: u64 = first_region;
        let mut regions: Vec<MemoryRegion> = Vec::new();
        let mut bitmaps: Vec<Vec<u8>> = Vec::new();
        let ghost entries = usable_entries(map);
        let mut i: usize = 0;
        while i < memory_regions.len()
            invariant
                i <= map.len(),
                map == memory_regions@,
                h == header,
                entries == usable_entries(map),
                first_region + PAGE_SIZE <= containing_entry.base + hhdm_offset + 2 * PAGE_SIZE,
                containing_entry.base + hhdm_offset + PAGE_SIZE + layout_bound(entries, h) <= usize::MAX,
                current_buffer_start == first_region + layout_size(usable_entries(map.take(i as int)), h),
                forall|j: int|
                    0 <= j < map.len() && #[trigger] map[j].entry_type == USABLE ==> map[j].length <= usize::MAX,
                regions@.len() == usable_entries(map.take(i as int)).len(),
                bitmaps@.len() == regions@.len(),
                forall|k: int|
                    0 <= k < regions@.len() ==> (#[trigger] regions@[k]).describes(
                        usable_entries(map.take(i as int))[k].base,
                        usable_entries(map.take(i as int))[k].length as nat,
                        (first_region + layout_size(usable_entries(map.take(i as int)).take(k), h) + h) as u64,
                    ),
                forall|k: int| 0 <= k < regions@.len() ==> (#[trigger] bitmaps@[k])@.len() == regions@[k].bitmap_size,
                forall|k: int, j: int|
                    0 <= k < regions@.len() && 0 <= j < bitmaps@[k]@.len() ==> #[trigger] bitmaps@[k]@[j] == 0,
            decreases map.len() - i,
        {
            let ghost before = usable_entries(map.take(i as int));
            proof {
                lemma_usable_entries_step(map, i as int);
                lemma_usable_entries_prefix(map, i + 1);
                lemma_layout_below_bound(entries, h, usable_entries(map.take(i + 1)).len() as int);
            }
            let entry = memory_regions[i];
            if entry.entry_type == USABLE {
                let ghost after = usable_entries(map.take(i + 1));
                assert(after.drop_last() =~= before);
                assert(after =~= entries.take(after.len() as int));
                let fc = div_ceil(entry.length as usize, PAGE_SIZE);
                proof {
                    lemma_order_offset_bound(fc as nat, (MAX_ORDER + 1) as nat);
                    lemma_layout_below_bound(entries, h, before.len() as int);
                    assert(entries.take(before.len() as int) =~= before);
                    assert(after.last() == entry);
                    assert(layout_bound(after, h) == layout_bound(before, h) + h + 2 * ceil_div(fc as nat, 8));
                }
                let bitmap_start_address = current_buffer_start + header as u64;
                let size = MemoryRegion::order_bitmap_address(0, fc, MAX_ORDER + 1) as usize;
                let mut memory: Vec<u8> = vec![0u8; size];
                let region = MemoryRegion::new(entry.base, entry.length as usize, bitmap_start_address, &mut memory);
                proof {
                    assert forall|k: int| 0 <= k < regions@.len() implies before.take(k) =~= after.take(k) by {}
                    assert(after.take(before.len() as int) =~= before);
                }
                current_buffer_start = current_buffer_start + header as u64 + region.bitmap_size as u64;
                regions.push(region);
                bitmaps.push(memory);
            }
            i = i + 1;
        }
        proof {
            assert(map.take(map.len() as int) =~= map);
        }
        Ok(BuddyAllocator { first_region, regions, bitmaps })
    }
}

pub proof fn lemma_reserve_prefix(entries: Seq<MemoryMapEntry>, per_entry: nat, k: int)
    requires
        0 <= k <= entries.len(),
    ensures
        reserve_size(entries.take(k), per_entry) <= reserve_size(entries, per_entry),
    decreases entries.len(),
{
    if k == entries.len() {
        assert(entries.take(k) =~= entries);
    } else {
        lemma_reserve_prefix(entries.drop_last(), per_entry, k);
        assert(entries.drop_last().take(k) =~= entries.take(k));
    }
}

} // verus!
