use vstd::prelude::*;
use std::collections::BTreeMap;
use vstd::std_specs::iter::IteratorSpec;
use vstd::std_specs::btree::spec_btree_map_iter;
use crate::memory::{PAGE_SIZE, VirtualAddress};

pub mod key_order;
pub mod paging;

use self::key_order::{keys_ordered, lemma_keys_ordered, lemma_increasing_addresses, lemma_increasing_size_keys};

verus! {

broadcast use vstd::std_specs::btree::group_btree_axioms;

// Tentative virtual memory map
//
// | Start Address      | End Address        | Usage                              |
// |--------------------|--------------------|------------------------------------|
// | 0x0000000000000000 | 0x00007FFFFFFFFFFF | User-space memory                  |
// | 0x0000800000000000 | 0xFFFF7FFFFFFFFFFF | Non-canonical addresses (Unusable) |
// | 0xFFFF800000000000 | 0xFFFFC87FFFFFFFFF | Direct mapping of physical memory  |
// | 0xFFFFC88000000000 | 0xFFFFC8FFFFFFFFFF | Unused guard hole                  |
// | 0xFFFFC90000000000 | 0xFFFFFFFEFFFFFFFF | kernel allocation space            |
// | 0xFFFFFFFF00000000 | 0xFFFFFFFF7FFFFFFF | Unused guard hole                  |
// | 0xFFFFFFFF80000000 | 0xFFFFFFFFFFFFFFFF | Kernel mapping                     |
pub const KERNEL_ALLOCATION_SPACE_START: VirtualAddress = 0xFFFFC90000000000;

pub const KERNEL_ALLOCATION_SPACE_END: VirtualAddress = 0xFFFFFFFEFFFFFFFF;

pub const KERNEL_ALLOCATION_SPACE_SIZE: u64 = KERNEL_ALLOCATION_SPACE_END - KERNEL_ALLOCATION_SPACE_START + 1;

/// Whether the free region starting at `a` has room for `size` bytes.
pub open spec fn fits(free: Map<u64, u64>, size: int, a: u64) -> bool {
    free.contains_key(a) && free[a] >= size
}

/// Region `a` is the best fit for `size`: among the regions that fit, it is the smallest,
/// and the lowest of the smallest (regions are ordered by size, then start address).
pub open spec fn is_best_fit(free: Map<u64, u64>, size: int, a: u64) -> bool {
    &&& fits(free, size, a)
    &&& forall|b: u64|
        #[trigger] fits(free, size, b) ==> free[a] < free[b] || (free[a] == free[b] && a <= b)
}

/// The free space after the first `size` bytes of region `a` are handed out.
pub open spec fn carve(free: Map<u64, u64>, a: u64, size: int) -> Map<u64, u64> {
    if free[a] > size {
        free.remove(a).insert((a + size) as u64, (free[a] - size) as u64)
    } else {
        free.remove(a)
    }
}

/// `l` is the highest free region that starts below `start`.
pub open spec fn is_left_neighbour(free: Map<u64, u64>, start: u64, l: u64) -> bool {
    &&& free.contains_key(l)
    &&& l < start
    &&& forall|b: u64| #[trigger] free.contains_key(b) && b < start ==> b <= l
}

/// The free region that ends exactly where `start` begins, if it is the closest one below.
pub open spec fn merges_left(free: Map<u64, u64>, start: u64) -> bool {
    exists|l: u64| is_left_neighbour(free, start, l) && l + free[l] == start
}

/// The free space after the `size` bytes at `start` are given back: the block is merged
/// into the region that ends where it starts; or else with the region that starts where it
/// ends; or else it becomes a region of its own.
pub open spec fn release(free: Map<u64, u64>, start: u64, size: int) -> Map<u64, u64> {
    if merges_left(free, start) {
        let l = choose|l: u64| is_left_neighbour(free, start, l) && l + free[l] == start;
        free.insert(l, (free[l] + size) as u64)
    } else if free.contains_key((start + size) as u64) {
        let r = (start + size) as u64;
        free.remove(r).insert(start, (free[r] + size) as u64)
    } else {
        free.insert(start, size as u64)
    }
}

/// The number of free bytes: the sizes of all free regions, added up.
pub open spec fn free_total(free: Map<u64, u64>) -> int
    decreases free.dom().len(),
{
    if free.dom().finite() && free.dom().len() > 0 {
        let k = free.dom().choose();
        proof {
            assert(free.remove(k).dom() =~= free.dom().remove(k));
        }
        free[k] + free_total(free.remove(k))
    } else {
        0
    }
}

/// The free bytes are those of any one region and those of the others.
pub proof fn lemma_free_total_remove(free: Map<u64, u64>, k: u64)
    requires
        free.dom().finite(),
        free.contains_key(k),
    ensures
        free_total(free) == free[k] + free_total(free.remove(k)),
    decreases free.dom().len(),
{
    assert(free.remove(k).dom() =~= free.dom().remove(k));
    let c = free.dom().choose();
    if c != k {
        assert(free.remove(c).dom() =~= free.dom().remove(c));
        lemma_free_total_remove(free.remove(c), k);
        lemma_free_total_remove(free.remove(k), c);
        assert(free.remove(c).remove(k) =~= free.remove(k).remove(c));
    }
}

/// Setting the size of region `k` changes the free bytes by the difference.
pub proof fn lemma_free_total_insert(free: Map<u64, u64>, k: u64, v: u64)
    requires
        free.dom().finite(),
    ensures
        free_total(free.insert(k, v)) == v + free_total(free.remove(k)),
        free.contains_key(k) ==> free_total(free) == free[k] + free_total(free.remove(k)),
{
    lemma_free_total_remove(free.insert(k, v), k);
    assert(free.insert(k, v).remove(k) =~= free.remove(k));
    if free.contains_key(k) {
        lemma_free_total_remove(free, k);
    } else {
        assert(free.remove(k) =~= free);
    }
}

/// Carving `size` bytes out of a region that holds them leaves `size` fewer free bytes.
pub proof fn lemma_carve_total(free: Map<u64, u64>, a: u64, size: int)
    requires
        free.dom().finite(),
        fits(free, size, a),
        size >= 0,
        free_space_wf(free),
    ensures
        free_total(carve(free, a, size)) == free_total(free) - size,
{
    lemma_free_total_remove(free, a);
    if size == 0 {
        if free[a] > 0 {
            assert(carve(free, a, size) =~= free);
        }
    } else if free[a] > size {
        let b = (a + size) as u64;
        if free.contains_key(b) {
            assert(a + free[a] <= b);
        }
        lemma_free_total_insert(free.remove(a), b, (free[a] - size) as u64);
        assert(free.remove(a).remove(b) =~= free.remove(a));
    }
}

/// Giving back `size` bytes that no free region overlaps adds `size` free bytes.
pub proof fn lemma_release_total(free: Map<u64, u64>, start: u64, size: int)
    requires
        free.dom().finite(),
        is_unused_range(free, start, size),
        0 <= size,
        start + size <= u64::MAX,
        free_space_wf(free),
    ensures
        free_total(release(free, start, size)) == free_total(free) + size,
{
    if merges_left(free, start) {
        let l = choose|l: u64| is_left_neighbour(free, start, l) && l + free[l] == start;
        lemma_free_total_insert(free, l, (free[l] + size) as u64);
    } else if size == 0 && free.contains_key(start) {
        assert(release(free, start, size) =~= free);
    } else if free.contains_key((start + size) as u64) {
        let r = (start + size) as u64;
        assert(!free.contains_key(start));
        lemma_free_total_remove(free, r);
        lemma_free_total_insert(free.remove(r), start, (free[r] + size) as u64);
        assert(free.remove(r).remove(start) =~= free.remove(r));
    } else {
        assert(!free.contains_key(start));
        lemma_free_total_insert(free, start, size as u64);
        assert(free.remove(start) =~= free);
    }
}

/// No free region overlaps the `size` bytes at `start`.
pub open spec fn is_unused_range(free: Map<u64, u64>, start: u64, size: int) -> bool {
    forall|a: u64|
        #[trigger] free.contains_key(a) ==> (a < start ==> a + free[a] <= start) && (start <= a
            ==> start + size <= a)
}

/// Free regions are pairwise disjoint and end within the address space.
pub open spec fn free_space_wf(free: Map<u64, u64>) -> bool {
    &&& forall|a: u64| #[trigger] free.contains_key(a) ==> a + free[a] <= u64::MAX
    &&& forall|a: u64, b: u64|
        #[trigger] free.contains_key(a) && #[trigger] free.contains_key(b) && a < b ==> a + free[a]
            <= b
}

/// No free region ends exactly where another one starts.
pub open spec fn coalesced(free: Map<u64, u64>) -> bool {
    forall|a: u64, b: u64|
        #[trigger] free.contains_key(a) && #[trigger] free.contains_key(b) && a != b ==> a + free[a]
            != b
}

/// Giving back a block that was just carved out of a region leaves no free region overlapping
/// it, and, when no two free regions touch, restores the free space exactly: what
/// `allocate_pages` takes, `deallocate_pages` of the same address and count gives back.
pub proof fn lemma_release_undoes_carve(free: Map<u64, u64>, a: u64, size: int)
    requires
        free_space_wf(free),
        fits(free, size, a),
        0 <= size,
    ensures
        is_unused_range(carve(free, a, size), a, size),
        coalesced(free) ==> release(carve(free, a, size), a, size) == free,
{
    let carved = carve(free, a, size);
    assert forall|b: u64| #[trigger] carved.contains_key(b) implies (b < a ==> b + carved[b] <= a) && (a
        <= b ==> a + size <= b) by {
        if b != a + size || free[a] <= size {
            assert(free.contains_key(b));
        }
    }
    if coalesced(free) {
        if merges_left(carved, a) {
            let l = choose|l: u64| is_left_neighbour(carved, a, l) && l + carved[l] == a;
            assert(free.contains_key(l) && l != a);
        }
        assert(!merges_left(carved, a));
        if free[a] > size {
            assert(release(carved, a, size) =~= free);
        } else {
            assert(!carved.contains_key((a + size) as u64)) by {
                if carved.contains_key((a + size) as u64) {
                    assert(free.contains_key((a + size) as u64));
                }
            }
            assert(release(carved, a, size) =~= free);
        }
    }
}

/// The by-size index of a set of free regions: each region `(start, size)` is keyed by
/// `(size, start)` and maps to `start`.
pub open spec fn size_index(free: Map<u64, u64>) -> Map<(u64, u64), u64> {
    Map::new(|k: (u64, u64)| free.contains_key(k.1) && free[k.1] == k.0, |k: (u64, u64)| k.1)
}

/// Hands out page-granular ranges of the kernel allocation space. Free space is kept twice:
/// by start address, and by size so that a best fit can be found.
pub struct VirtualMemoryManager {
    free_addresses: BTreeMap<VirtualAddress, u64>,
    free_regions: BTreeMap<(u64, VirtualAddress), VirtualAddress>,
    allocated_amount: u64,
}

impl VirtualMemoryManager {
    /// The free regions: start address to size in bytes.
    pub closed spec fn free_space(&self) -> Map<u64, u64> {
        self.free_addresses@
    }

    /// The free regions keyed by size, then start address, each mapping to its start address.
    pub closed spec fn regions_by_size(&self) -> Map<(u64, u64), u64> {
        self.free_regions@
    }

    /// The regions by size are the free space, indexed by size: the two stay in step.
    pub proof fn lemma_regions_by_size(&self)
        requires
            self.wf(),
        ensures
            self.regions_by_size() == size_index(self.free_space()),
            free_space_wf(self.free_space()),
    {
    }

    /// The number of bytes handed out and not given back.
    pub closed spec fn allocated(&self) -> u64 {
        self.allocated_amount
    }

    /// The two trees describe the same free regions, which are disjoint.
    /// The bytes handed out and the free bytes make up the whole allocation space.
    pub open spec fn conserved(&self) -> bool {
        free_total(self.free_space()) + self.allocated() == KERNEL_ALLOCATION_SPACE_SIZE
    }

    pub closed spec fn wf(&self) -> bool {
        &&& self.free_regions@ == size_index(self.free_addresses@)
        &&& free_space_wf(self.free_addresses@)
    }

    pub fn new() -> (r: Self)
        ensures
            r.wf(),
            r.free_space() == map![KERNEL_ALLOCATION_SPACE_START => KERNEL_ALLOCATION_SPACE_SIZE],
            r.allocated() == 0,
            r.conserved(),
    {
        proof {
            lemma_keys_ordered();
        }
        let mut free_addresses = BTreeMap::new();
        free_addresses.insert(KERNEL_ALLOCATION_SPACE_START, KERNEL_ALLOCATION_SPACE_SIZE);
        let mut free_regions = BTreeMap::new();
        free_regions.insert(
            (KERNEL_ALLOCATION_SPACE_SIZE, KERNEL_ALLOCATION_SPACE_START),
            KERNEL_ALLOCATION_SPACE_START,
        );
        let r = Self { free_addresses, free_regions, allocated_amount: 0 };
        proof {
            assert(r.free_regions@ =~= size_index(r.free_addresses@));
            let m = r.free_addresses@;
            lemma_free_total_remove(m, KERNEL_ALLOCATION_SPACE_START);
            assert(m.remove(KERNEL_ALLOCATION_SPACE_START).dom() =~= Set::empty());
        }
        r
    }

    /// Allocates a single page in the kernel allocation space region
    pub fn allocate_page(&mut self) -> (r: Result<VirtualAddress, &'static str>)
        requires
            old(self).wf(),
            old(self).allocated() + PAGE_SIZE <= u64::MAX,
        ensures
            final(self).wf(),
            match r {
                Ok(a) => {
                    &&& is_best_fit(old(self).free_space(), PAGE_SIZE as int, a)
                    &&& final(self).free_space() == carve(old(self).free_space(), a, PAGE_SIZE as int)
                    &&& final(self).allocated() == old(self).allocated() + PAGE_SIZE
                },
                Err(e) => {
                    &&& forall|b: u64| !#[trigger] fits(old(self).free_space(), PAGE_SIZE as int, b)
                    &&& final(self).free_space() == old(self).free_space()
                    &&& final(self).allocated() == old(self).allocated()
                    &&& e@ == "vmm: not enough memory"@
                },
            },
            old(self).conserved() ==> final(self).conserved(),
    {
        let r = self.allocate_pages(1);
        assert(1 * PAGE_SIZE == PAGE_SIZE as int);
        r
    }

    /// Allocates `count` contiguous pages from the best-fitting free region: the smallest
    /// region that is large enough, and the lowest of those. The region shrinks from its
    /// start, or disappears when it fits exactly.
    pub fn allocate_pages(&mut self, count: usize) -> (r: Result<VirtualAddress, &'static str>)
        requires
            old(self).wf(),
            count * PAGE_SIZE <= u64::MAX,
            old(self).allocated() + count * PAGE_SIZE <= u64::MAX,
        ensures
            final(self).wf(),
            match r {
                Ok(a) => {
                    &&& is_best_fit(old(self).free_space(), count * PAGE_SIZE, a)
                    &&& a + count * PAGE_SIZE <= u64::MAX
                    &&& final(self).free_space() == carve(old(self).free_space(), a, count * PAGE_SIZE)
                    &&& final(self).allocated() == old(self).allocated() + count * PAGE_SIZE
                },
                Err(e) => {
                    &&& forall|b: u64| !#[trigger] fits(old(self).free_space(), count * PAGE_SIZE, b)
                    &&& final(self).free_space() == old(self).free_space()
                    &&& final(self).allocated() == old(self).allocated()
                    &&& e@ == "vmm: not enough memory"@
                },
            },
            old(self).conserved() ==> final(self).conserved(),
    {
        proof {
            lemma_keys_ordered();
            reveal_strlit("vmm: not enough memory");
        }
        let required_size: u64 = (count as u64) * (PAGE_SIZE as u64);
        let ghost free0 = self.free_addresses@;
        // Find the first region that is big enough to accommodate the allocation request
        let region_key = match find_best_fit(&self.free_regions, required_size) {
            Some(k) => k,
            None => {
                proof {
                    assert forall|b: u64| !fits(free0, required_size as int, b) by {
                        if fits(free0, required_size as int, b) {
                            assert(self.free_regions@.contains_key((free0[b], b)));
                        }
                    }
                }
                return Err("vmm: not enough memory");
            },
        };
        let (size, start) = region_key;
        proof {
            assert(size_index(free0).contains_key(region_key));
            assert(free0.contains_key(start) && free0[start] == size);
            assert forall|b: u64| #[trigger] fits(free0, required_size as int, b) implies free0[start]
                < free0[b] || (free0[start] == free0[b] && start <= b) by {
                assert(self.free_regions@.contains_key((free0[b], b)));
            }
        }
        let region = self.free_regions.remove(&region_key);
        let ghost regions1 = self.free_regions@;
        // Shrink the region if it can fit the requested size
        if size > required_size {
            self.free_regions.insert((size - required_size, start + required_size), start + required_size);
        }
        // Sync the other tree
        let removed = self.free_addresses.remove(&start);
        if size > required_size {
            self.free_addresses.insert(start + required_size, size - required_size);
        }
        self.allocated_amount = self.allocated_amount + required_size;
        proof {
            let free1 = self.free_addresses@;
            assert(free1 == carve(free0, start, required_size as int));
            lemma_carve_total(free0, start, required_size as int);
            assert forall|a: u64, b: u64|
                #[trigger] free1.contains_key(a) && #[trigger] free1.contains_key(b) && a < b implies a
                + free1[a] <= b by {
                if size > required_size {
                    let n = (start + required_size) as u64;
                    if a == n {
                        assert(free0.contains_key(b) && start < b);
                    } else if b == n {
                        assert(free0.contains_key(a));
                        assert(a != start);
                        if a > start {
                            assert(start + free0[start] <= a);
                        }
                    }
                }
            }
            assert(self.free_regions@ =~= size_index(free1)) by {
                assert forall|k: (u64, u64)| #[trigger] self.free_regions@.contains_key(k) implies size_index(
                    free1,
                ).contains_key(k) && self.free_regions@[k] == k.1 by {
                    if size > required_size && k == ((size - required_size) as u64, (start + required_size) as u64) {
                    } else {
                        assert(size_index(free0).contains_key(k));
                        assert(k.1 != start);
                        if size > required_size {
                            assert(k.1 != start + required_size) by {
                                if k.1 == start + required_size {
                                    assert(free0.contains_key(k.1));
                                }
                            }
                        }
                    }
                }
                assert forall|k: (u64, u64)| #[trigger] size_index(free1).contains_key(k) implies self.free_regions@.contains_key(k) by {
                    if size > required_size && k.1 == start + required_size {
                    } else {
                        assert(free0.contains_key(k.1));
                        assert(size_index(free0).contains_key(k));
                    }
                }
            }
        }
        Ok(start)
    }

    /// Gives back the page at `address`.
    pub fn deallocate_page(&mut self, address: VirtualAddress) -> (r: Result<(), &'static str>)
        requires
            old(self).wf(),
            address + PAGE_SIZE <= u64::MAX,
        ensures
            final(self).wf(),
            r is Ok <==> is_unused_range(old(self).free_space(), address, PAGE_SIZE as int)
                && old(self).allocated() >= PAGE_SIZE,
            r is Ok ==> final(self).free_space() == release(old(self).free_space(), address, PAGE_SIZE as int),
            r is Ok ==> final(self).allocated() == old(self).allocated() - PAGE_SIZE,
            r is Err ==> *final(self) == *old(self),
            old(self).conserved() ==> final(self).conserved(),
    {
        assert(1 * PAGE_SIZE == PAGE_SIZE as int);
        self.deallocate_pages(address, 1)
    }

    /// Gives back the `count` pages starting at `start_address`. The range is merged into
    /// the free region that ends where it starts; or else into the free region that starts
    /// where it ends; or else it becomes a free region of its own. Memory that is already
    /// free, in part or whole, or more than was handed out, is refused and nothing changes.
    pub fn deallocate_pages(&mut self, start_address: VirtualAddress, count: usize) -> (r: Result<
        (),
        &'static str,
    >)
        requires
            old(self).wf(),
            count * PAGE_SIZE <= u64::MAX,
            start_address + count * PAGE_SIZE <= u64::MAX,
        ensures
            final(self).wf(),
            r is Ok <==> is_unused_range(old(self).free_space(), start_address, count * PAGE_SIZE)
                && old(self).allocated() >= count * PAGE_SIZE,
            r is Ok ==> final(self).free_space() == release(
                old(self).free_space(),
                start_address,
                count * PAGE_SIZE,
            ),
            r is Ok ==> final(self).allocated() == old(self).allocated() - count * PAGE_SIZE,
            r is Err ==> *final(self) == *old(self),
            old(self).conserved() ==> final(self).conserved(),
    {
        proof {
            lemma_keys_ordered();
        }
        let required_size: u64 = (count as u64) * (PAGE_SIZE as u64);
        if self.allocated_amount < required_size || !range_is_unused(&self.free_addresses, start_address, required_size) {
            return Err("vmm: memory is already free");
        }
        proof {
            lemma_release_total(self.free_addresses@, start_address, required_size as int);
        }
        let ghost free0 = self.free_addresses@;
        let ghost regions0 = self.free_regions@;
        // If neighbouring left region is unallocated, merge it with the one currently being freed
        if let Some((left_start, left_size)) = find_left(&self.free_addresses, start_address) {
            // Check if region is a direct neighbour
            if left_start + left_size == start_address {
                // Increase the region's size
                self.free_addresses.insert(left_start, left_size + required_size);
                // Sync the other tree
                self.free_regions.remove(&(left_size, left_start));
                self.free_regions.insert((left_size + required_size, left_start), left_start);
                self.allocated_amount = self.allocated_amount - required_size;
                proof {
                    assert(merges_left(free0, start_address));
                    let l = choose|l: u64| is_left_neighbour(free0, start_address, l) && l + free0[l]
                        == start_address;
                    assert(l == left_start);
                    let free1 = self.free_addresses@;
                    assert forall|a: u64, b: u64|
                        #[trigger] free1.contains_key(a) && #[trigger] free1.contains_key(b) && a < b implies a
                        + free1[a] <= b by {
                        if a == left_start {
                            assert(free0.contains_key(b));
                            assert(b >= start_address);
                        }
                    }
                    assert(self.free_regions@ =~= size_index(free1)) by {
                        assert forall|k: (u64, u64)| #[trigger] self.free_regions@.contains_key(k) implies size_index(
                            free1,
                        ).contains_key(k) && self.free_regions@[k] == k.1 by {
                            if k.1 != left_start {
                                assert(regions0.contains_key(k));
                            }
                        }
                        assert forall|k: (u64, u64)| #[trigger] size_index(free1).contains_key(k) implies self.free_regions@.contains_key(k) by {
                            if k.1 != left_start {
                                assert(size_index(free0).contains_key(k));
                            }
                        }
                    }
                }
                return Ok(());
            }
        }
        proof {
            assert(!merges_left(free0, start_address));
        }
        let right_start = start_address + required_size;
        if let Some(right_size) = self.free_addresses.remove(&right_start) {
            self.free_addresses.insert(start_address, right_size + required_size);
            // Sync the other tree
            self.free_regions.remove(&(right_size, right_start));
            self.free_regions.insert((right_size + required_size, start_address), start_address);
            self.allocated_amount = self.allocated_amount - required_size;
            proof {
                let free1 = self.free_addresses@;
                assert(free1 == release(free0, start_address, required_size as int));
                assert forall|a: u64, b: u64|
                    #[trigger] free1.contains_key(a) && #[trigger] free1.contains_key(b) && a < b implies a
                    + free1[a] <= b by {
                    if a == start_address {
                        assert(free0.contains_key(b));
                        assert(b != right_start);
                        assert(start_address + required_size <= b);
                    } else if b == start_address {
                        assert(free0.contains_key(a));
                    }
                }
                assert(self.free_regions@ =~= size_index(free1)) by {
                    assert forall|k: (u64, u64)| #[trigger] self.free_regions@.contains_key(k) implies size_index(
                        free1,
                    ).contains_key(k) && self.free_regions@[k] == k.1 by {
                        if k.1 != start_address {
                            assert(regions0.contains_key(k));
                            assert(k.1 != right_start);
                        }
                    }
                    assert forall|k: (u64, u64)| #[trigger] size_index(free1).contains_key(k) implies self.free_regions@.contains_key(k) by {
                        if k.1 != start_address {
                            assert(size_index(free0).contains_key(k));
                        }
                    }
                }
            }
            Ok(())
        } else {
            // If both neighbouring regions are allocated, just reinsert the region
            self.free_addresses.insert(start_address, required_size);
            self.free_regions.insert((required_size, start_address), start_address);
            self.allocated_amount = self.allocated_amount - required_size;
            proof {
                let free1 = self.free_addresses@;
                assert(!free0.contains_key(start_address));
                assert forall|a: u64, b: u64|
                    #[trigger] free1.contains_key(a) && #[trigger] free1.contains_key(b) && a < b implies a
                    + free1[a] <= b by {
                    if a == start_address {
                        assert(free0.contains_key(b));
                    } else if b == start_address {
                        assert(free0.contains_key(a));
                    }
                }
                assert(self.free_regions@ =~= size_index(free1)) by {
                    assert forall|k: (u64, u64)| #[trigger] self.free_regions@.contains_key(k) implies size_index(
                        free1,
                    ).contains_key(k) && self.free_regions@[k] == k.1 by {
                        if k.1 != start_address || k.0 != required_size {
                            assert(regions0.contains_key(k));
                        }
                    }
                    assert forall|k: (u64, u64)| #[trigger] size_index(free1).contains_key(k) implies self.free_regions@.contains_key(k) by {
                        if k.1 != start_address {
                            assert(size_index(free0).contains_key(k));
                        }
                    }
                }
                assert(free1 =~= release(free0, start_address, required_size as int));
            }
            Ok(())
        }
    }

    /// The free regions, lowest first: the start address and the size in bytes of each.
    pub fn free_address_list(&self) -> (r: Vec<(VirtualAddress, u64)>)
        ensures
            r@.len() == self.free_space().dom().len(),
            forall|i: int|
                0 <= i < r@.len() ==> #[trigger] self.free_space().contains_key(r@[i].0) && self.free_space()[r@[i].0]
                    == r@[i].1,
            forall|a: u64| #[trigger] self.free_space().contains_key(a) ==> exists|i: int| 0 <= i < r@.len() && r@[i].0 == a,
            forall|i: int, j: int| 0 <= i < j < r@.len() ==> r@[i].0 < r@[j].0,
    {
        proof {
            lemma_keys_ordered();
        }
        let mut r: Vec<(u64, u64)> = Vec::new();
        let iter = self.free_addresses.iter();
        let ghost sq = iter.remaining();
        proof {
            lemma_increasing_addresses(sq.map_values(|kv: (&u64, &u64)| *kv.0));
        }
        for kv in it: iter
            invariant
                keys_ordered(),
                it.seq() == sq,
                sq == spec_btree_map_iter(&self.free_addresses).remaining(),
                r@.len() == it.index(),
                forall|i: int| 0 <= i < it.index() ==> #[trigger] r@[i] == (*sq[i].0, *sq[i].1),
        {
            let (k, v) = kv;
            r.push((*k, *v));
        }
        proof {
            assert forall|a: u64| #[trigger] self.free_space().contains_key(a) implies exists|i: int|
                0 <= i < r@.len() && r@[i].0 == a by {
                assert(sq.contains((&a, &self.free_addresses@[a])));
                let i = choose|i: int| 0 <= i < sq.len() && sq[i] == (&a, &self.free_addresses@[a]);
                assert(r@[i].0 == a);
            }
            assert forall|i: int, j: int| 0 <= i < j < r@.len() implies r@[i].0 < r@[j].0 by {
                assert(sq.map_values(|kv: (&u64, &u64)| *kv.0)[i] == r@[i].0);
                assert(sq.map_values(|kv: (&u64, &u64)| *kv.0)[j] == r@[j].0);
            }
        }
        r
    }

    /// The by-size index of the free regions, smallest first: for each region its size and
    /// start address, with its start address.
    pub fn free_size_list(&self) -> (r: Vec<((u64, VirtualAddress), VirtualAddress)>)
        requires
            self.wf(),
        ensures
            r@.len() == size_index(self.free_space()).dom().len(),
            forall|i: int|
                0 <= i < r@.len() ==> #[trigger] size_index(self.free_space()).contains_key(r@[i].0) && size_index(
                    self.free_space(),
                )[r@[i].0] == r@[i].1,
            forall|k: (u64, u64)| #[trigger] size_index(self.free_space()).contains_key(k) ==> exists|i: int|
                0 <= i < r@.len() && r@[i].0 == k,
            forall|i: int, j: int|
                0 <= i < j < r@.len() ==> r@[i].0.0 < r@[j].0.0 || (r@[i].0.0 == r@[j].0.0 && r@[i].0.1 < r@[j].0.1),
    {
        proof {
            lemma_keys_ordered();
        }
        let mut r: Vec<((u64, u64), u64)> = Vec::new();
        let iter = self.free_regions.iter();
        let ghost sq = iter.remaining();
        proof {
            lemma_increasing_size_keys(sq.map_values(|kv: (&(u64, u64), &u64)| *kv.0));
        }
        for kv in it: iter
            invariant
                keys_ordered(),
                it.seq() == sq,
                sq == spec_btree_map_iter(&self.free_regions).remaining(),
                r@.len() == it.index(),
                forall|i: int| 0 <= i < it.index() ==> #[trigger] r@[i] == (*sq[i].0, *sq[i].1),
        {
            let (k, v) = kv;
            r.push((*k, *v));
        }
        proof {
            assert forall|k: (u64, u64)| #[trigger] size_index(self.free_space()).contains_key(k) implies exists|i: int|
                0 <= i < r@.len() && r@[i].0 == k by {
                assert(self.free_regions@.contains_key(k));
                assert(sq.contains((&k, &self.free_regions@[k])));
                let i = choose|i: int| 0 <= i < sq.len() && sq[i] == (&k, &self.free_regions@[k]);
                assert(r@[i].0 == k);
            }
            assert forall|i: int, j: int| 0 <= i < j < r@.len() implies r@[i].0.0 < r@[j].0.0 || (r@[i].0.0
                == r@[j].0.0 && r@[i].0.1 < r@[j].0.1) by {
                assert(sq.map_values(|kv: (&(u64, u64), &u64)| *kv.0)[i] == r@[i].0);
                assert(sq.map_values(|kv: (&(u64, u64), &u64)| *kv.0)[j] == r@[j].0);
            }
            assert(self.free_regions@ == size_index(self.free_space()));
        }
        r
    }

    pub fn get_allocated_amount(&self) -> (r: u64)
        ensures
            r == self.allocated(),
    {
        self.allocated_amount
    }
}

/// Whether no free region overlaps the `size` bytes at `start`.
fn range_is_unused(free: &BTreeMap<u64, u64>, start: u64, size: u64) -> (r: bool)
    requires
        free_space_wf(free@),
        start + size <= u64::MAX,
    ensures
        r == is_unused_range(free@, start, size as int),
{
    proof {
        lemma_keys_ordered();
    }
    let ghost sq = spec_btree_map_iter(free).remaining();
    for kv in it: free.iter()
        invariant
            keys_ordered(),
            it.seq() == sq,
            free_space_wf(free@),
            start + size <= u64::MAX,
            forall|i: int| 0 <= i < it.index() ==> clear_of(free@, *(#[trigger] it.seq()[i]).0, start, size as int),
    {
        let (k, v) = kv;
        proof {
            assert(free@.contains_key(*k) && free@[*k] == *v);
        }
        if *k < start {
            if *v > start - *k {
                return false;
            }
        } else if size > *k - start {
            return false;
        }
    }
    proof {
        assert forall|a: u64| #[trigger] free@.contains_key(a) implies clear_of(free@, a, start, size as int) by {
            assert(sq.contains((&a, &free@[a])));
        }
    }
    true
}

/// The free region at `a` does not overlap the `size` bytes at `start`.
pub open spec fn clear_of(free: Map<u64, u64>, a: u64, start: u64, size: int) -> bool {
    (a < start ==> a + free[a] <= start) && (start <= a ==> start + size <= a)
}

/// The highest free region starting below `start`, with its size.
fn find_left(free: &BTreeMap<u64, u64>, start: u64) -> (r: Option<(u64, u64)>)
    ensures
        match r {
            Some((a, s)) => is_left_neighbour(free@, start, a) && free@[a] == s,
            None => forall|b: u64| free@.contains_key(b) ==> b >= start,
        },
{
    proof {
        lemma_keys_ordered();
    }
    let mut best: Option<(u64, u64)> = None;
    let ghost sq = spec_btree_map_iter(free).remaining();
    for kv in it: free.iter()
        invariant
            keys_ordered(),
            it.seq() == sq,
            match best {
                Some((a, s)) => free@.contains_key(a) && free@[a] == s && a < start && forall|i: int|
                    0 <= i < it.index() && *it.seq()[i].0 < start ==> *it.seq()[i].0 <= a,
                None => forall|i: int| 0 <= i < it.index() ==> *it.seq()[i].0 >= start,
            },
    {
        let (k, v) = kv;
        if *k < start {
            match best {
                Some((a, _)) => {
                    if *k > a {
                        best = Some((*k, *v));
                    }
                },
                None => {
                    best = Some((*k, *v));
                },
            }
        }
    }
    proof {
        assert forall|b: u64| free@.contains_key(b) implies (match best {
            Some((a, s)) => b < start ==> b <= a,
            None => b >= start,
        }) by {
            assert(sq.contains((&b, &free@[b])));
        }
    }
    best
}

/// The key `(size, start)` of the best-fitting region for `size` bytes.
fn find_best_fit(regions: &BTreeMap<(u64, u64), u64>, size: u64) -> (r: Option<(u64, u64)>)
    ensures
        match r {
            Some(k) => regions@.contains_key(k) && k.0 >= size && forall|b: (u64, u64)|
                #[trigger] regions@.contains_key(b) && b.0 >= size ==> k.0 < b.0 || (k.0 == b.0
                    && k.1 <= b.1),
            None => forall|b: (u64, u64)| #[trigger] regions@.contains_key(b) ==> b.0 < size,
        },
{
    proof {
        lemma_keys_ordered();
    }
    let mut best: Option<(u64, u64)> = None;
    let ghost sq = spec_btree_map_iter(regions).remaining();
    for kv in it: regions.iter()
        invariant
            keys_ordered(),
            it.seq() == sq,
            match best {
                Some(k) => regions@.contains_key(k) && k.0 >= size && forall|i: int|
                    0 <= i < it.index() && (*it.seq()[i].0).0 >= size ==> k.0 < (
                    *it.seq()[i].0).0 || (k.0 == (*it.seq()[i].0).0 && k.1 <= (*it.seq()[i].0).1),
                None => forall|i: int| 0 <= i < it.index() ==> (*it.seq()[i].0).0 < size,
            },
    {
        let (k, _) = kv;
        let k = *k;
        if k.0 >= size {
            match best {
                Some(b) => {
                    if k.0 < b.0 || (k.0 == b.0 && k.1 < b.1) {
                        best = Some(k);
                    }
                },
                None => {
                    best = Some(k);
                },
            }
        }
    }
    proof {
        assert forall|b: (u64, u64)| regions@.contains_key(b) implies (match best {
            Some(k) => b.0 >= size ==> k.0 < b.0 || (k.0 == b.0 && k.1 <= b.1),
            None => b.0 < size,
        }) by {
            assert(sq.contains((&b, &regions@[b])));
        }
    }
    best
}

} // verus!
