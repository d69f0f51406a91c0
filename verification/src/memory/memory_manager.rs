use vstd::prelude::*;
use crate::memory::{PAGE_SIZE, PhysicalAddress, VirtualAddress};
use crate::memory::physical_memory::{Frame, FrameAllocator};
use crate::memory::physical_memory::buddy_allocator_bitmap::{ceil_div, div_ceil, lemma_two_to_monotonic, power_of_two, two_to, MAX_ORDER};
use crate::memory::virtual_memory::{VirtualMemoryManager, carve, fits, is_best_fit};
use crate::memory::virtual_memory::paging::{ActivePageTable, Page, is_canonical, table_index};
use crate::memory::virtual_memory::paging::entry::{ALL_FLAGS, EntryFlags, FRAME_NUMBER_LIMIT, PRESENT, entry_value};
use crate::memory::virtual_memory::paging::mapper::walk_tables;
use crate::memory::virtual_memory::paging::mapper::{
    TableMemory, layered, leaf_slot, lemma_leaf_write_keeps_other_walks, lemma_translation_is_4k, walk_4k,
    level1_table, table_at, entry_at, leaf_holds, leaf_maps_with, lemma_keeps_present_leaf,
    lemma_leaf_entry_present, lemma_layered_paths_distinct, keeps_present, table_frames_ready,
    existing_path_distinct, leaf_unused, no_huge_on_path, translation,
};

verus! {

/// What the memory manager asks of its physical allocator besides single frames: blocks of
/// `2^order` contiguous frames, and the amount of memory handed out. Each answer is a
/// function of the allocator's state, which the allocator names; handing out and taking back
/// blocks keeps the allocator's invariant.
pub trait BlockAllocator: FrameAllocator {
    /// What handing out a block of `2^order` frames gives in this state.
    spec fn block_for(&self, order: usize) -> Result<PhysicalAddress, &'static str>;

    /// What taking back the block of `2^order` frames at `address` gives in this state.
    spec fn release_of(&self, address: PhysicalAddress, order: usize) -> Result<(), &'static str>;

    /// The number of bytes handed out in this state.
    spec fn allocated_amount(&self) -> usize;

    /// Hands out `2^order` contiguous frames, by the address of the first.
    fn allocate_frames(&mut self, order: usize) -> (r: Result<PhysicalAddress, &'static str>)
        requires
            old(self).wf_allocator(),
        ensures
            final(self).wf_allocator(),
            r == old(self).block_for(order),
    ;

    /// Takes back the `2^order` contiguous frames from `address`.
    fn deallocate_frames(&mut self, address: PhysicalAddress, order: usize) -> (r: Result<(), &'static str>)
        requires
            old(self).wf_allocator(),
        ensures
            final(self).wf_allocator(),
            r == old(self).release_of(address, order),
    ;

    /// The number of bytes handed out.
    fn get_allocated_amount(&self) -> (r: usize)
        ensures
            r == self.allocated_amount(),
    ;
}

/// `order` is the smallest order, up to `MAX_ORDER`, whose blocks of `2^order` pages hold
/// `page_count` pages.
pub open spec fn is_block_order(page_count: nat, order: nat) -> bool {
    &&& order <= MAX_ORDER
    &&& two_to(order) >= page_count
    &&& forall|k: nat| k < order ==> #[trigger] two_to(k) < page_count
}

/// The smallest order, up to `MAX_ORDER`, whose blocks hold `page_count` pages; none when
/// even the largest block is too small.
pub fn block_order(page_count: usize) -> (r: Option<usize>)
    ensures
        match r {
            Some(order) => is_block_order(page_count as nat, order as nat),
            None => forall|k: nat| k <= MAX_ORDER ==> #[trigger] two_to(k) < page_count,
        },
{
    let mut order: usize = 0;
    while order <= MAX_ORDER
        invariant
            order <= MAX_ORDER + 1,
            forall|k: nat| k < order ==> #[trigger] two_to(k) < page_count,
        decreases MAX_ORDER + 1 - order,
    {
        if power_of_two(order) >= page_count {
            return Some(order);
        }
        order = order + 1;
    }
    None
}

/// The number of the `k`-th page of the block at `address`.
pub open spec fn block_page(address: u64, k: nat) -> u64 {
    ((address + PAGE_SIZE * k) / (PAGE_SIZE as int)) as u64
}

/// Every page of the block of `2^order` frames at `address` is canonical and mapped through a
/// level-1 entry of its own.
pub open spec fn block_mapped(mem: TableMemory, p4: u64, address: u64, order: nat) -> bool {
    &&& forall|k: nat|
        k < two_to(order) ==> {
            &&& address + PAGE_SIZE * k <= u64::MAX
            &&& is_canonical((address + PAGE_SIZE * k) as u64)
            &&& walk_4k(mem, p4, #[trigger] block_page(address, k)) is Some
        }
    &&& forall|k: nat, l: nat|
        k < two_to(order) && l < two_to(order) && k != l ==> leaf_slot(mem, p4, #[trigger] block_page(address, k))
            != leaf_slot(mem, p4, #[trigger] block_page(address, l))
}

/// Every page of the `n` pages from `address` can be mapped: its address is canonical and its
/// walk reaches an unused level-1 entry of its own.
pub open spec fn pages_ready(mem: TableMemory, p4: u64, address: u64, n: nat) -> bool {
    &&& forall|k: nat|
        k < n ==> {
            &&& is_canonical((address + PAGE_SIZE * k) as u64)
            &&& walk_tables(mem, p4, #[trigger] block_page(address, k)) is Some
            &&& leaf_unused(mem, p4, block_page(address, k))
        }
    &&& forall|k: nat, l: nat|
        k < n && l < n && k != l ==> leaf_slot(mem, p4, #[trigger] block_page(address, k))
            != leaf_slot(mem, p4, #[trigger] block_page(address, l))
}

/// The next `n` frames that `alloc` hands out are frames in range.
pub open spec fn frames_ready<A: FrameAllocator>(alloc: A, n: nat) -> bool {
    forall|k: u64|
        k < n ==> (#[trigger] alloc.frame_after(k) is Ok && alloc.frame_after(k)->Ok_0.number < FRAME_NUMBER_LIMIT)
}

/// Every frame of the block of `2^order` frames at `address` can be mapped to the page of the
/// same number: its address is in range and canonical, and its walk reaches an unused level-1
/// entry of its own.
pub open spec fn block_identity_ready(mem: TableMemory, p4: u64, address: u64, order: nat) -> bool {
    &&& forall|k: nat|
        k < two_to(order) ==> {
            &&& address + PAGE_SIZE * k <= u64::MAX
            &&& block_page(address, k) < FRAME_NUMBER_LIMIT
            &&& is_canonical((block_page(address, k) * PAGE_SIZE) as u64)
            &&& walk_tables(mem, p4, #[trigger] block_page(address, k)) is Some
            &&& leaf_unused(mem, p4, block_page(address, k))
        }
    &&& forall|k: nat, l: nat|
        k < two_to(order) && l < two_to(order) && k != l ==> leaf_slot(mem, p4, #[trigger] block_page(address, k))
            != leaf_slot(mem, p4, #[trigger] block_page(address, l))
}

/// There is one smallest order.
pub proof fn lemma_block_order_unique(page_count: nat, a: nat, b: nat)
    requires
        is_block_order(page_count, a),
        is_block_order(page_count, b),
    ensures
        a == b,
{
    if a < b {
        assert(two_to(a) < page_count);
    } else if b < a {
        assert(two_to(b) < page_count);
    }
}

/// The physical allocator, the page tables in use and the kernel's virtual address space.
pub struct MemoryManager<A: BlockAllocator> {
    pub frame_allocator: A,
    pub active_page_table: ActivePageTable,
    pub virtual_memory_manager: VirtualMemoryManager,
}

impl<A: BlockAllocator> MemoryManager<A> {
    /// Each part keeps its own invariant.
    pub open spec fn wf(&self) -> bool {
        &&& self.frame_allocator.wf_allocator()
        &&& self.active_page_table.mapper.wf()
        &&& self.virtual_memory_manager.wf()
    }

    /// The amount of memory handed out: physical first, then virtual.
    pub fn get_allocated_memory_amount(&self) -> (r: (usize, u64))
        ensures
            r.0 == self.frame_allocator.allocated_amount(),
            r.1 == self.virtual_memory_manager.allocated(),
    {
        (self.frame_allocator.get_allocated_amount(), self.virtual_memory_manager.get_allocated_amount())
    }

    /// Allocates physically contiguous memory for `size` bytes: a block of the smallest order
    /// that holds them, by the address of its first frame; none when the allocator has no
    /// such block.
    pub fn pmm_alloc(&mut self, size: usize) -> (r: Option<PhysicalAddress>)
        requires
            old(self).wf(),
            size + PAGE_SIZE - 1 <= usize::MAX,
            ceil_div(size as nat, PAGE_SIZE as nat) <= two_to(MAX_ORDER as nat),
        ensures
            final(self).active_page_table == old(self).active_page_table,
            final(self).virtual_memory_manager == old(self).virtual_memory_manager,
            forall|order: nat|
                #[trigger] is_block_order(ceil_div(size as nat, PAGE_SIZE as nat), order) ==> r == match old(
                    self,
                ).frame_allocator.block_for(order as usize) {
                    Ok(a) => Some(a),
                    Err(_) => None,
                },
    {
        let page_count = div_ceil(size, PAGE_SIZE);
        let order = match block_order(page_count) {
            Some(order) => order,
            None => {
                proof {
                    lemma_two_to_monotonic(MAX_ORDER as nat, MAX_ORDER as nat);
                }
                assert(two_to(MAX_ORDER as nat) < page_count);
                return None;
            },
        };
        proof {
            assert forall|o: nat| #[trigger] is_block_order(ceil_div(size as nat, PAGE_SIZE as nat), o) implies o == order by {
                lemma_block_order_unique(page_count as nat, o, order as nat);
            }
        }
        match self.frame_allocator.allocate_frames(order) {
            Ok(alloc) => Some(alloc),
            Err(_) => None,
        }
    }

    /// Allocates virtual memory for `size` bytes: the best-fitting block of whole pages in the
    /// kernel's address space, each page mapped to a frame of its own. The block is none when
    /// the address space has no room; it is none as well, with the address space still taken,
    /// when a page cannot be mapped: no frame is left, the frame is out of range, the page is
    /// not canonical or already mapped, or a table cannot be made. On layered page tables,
    /// every page of a block handed out is mapped.
    pub fn vmm_alloc(&mut self, size: usize, flags: EntryFlags) -> (r: Option<VirtualAddress>)
        requires
            old(self).wf(),
            size + PAGE_SIZE - 1 <= usize::MAX,
            ceil_div(size as nat, PAGE_SIZE as nat) * PAGE_SIZE <= u64::MAX,
            old(self).virtual_memory_manager.allocated() + ceil_div(size as nat, PAGE_SIZE as nat) * PAGE_SIZE
                <= u64::MAX,
        ensures
            final(self).wf(),
            ({
                let bytes = ceil_div(size as nat, PAGE_SIZE as nat) * PAGE_SIZE;
                let free = old(self).virtual_memory_manager.free_space();
                &&& r matches Some(a) ==> {
                    &&& is_best_fit(free, bytes, a)
                    &&& final(self).virtual_memory_manager.free_space() == carve(free, a, bytes)
                    &&& final(self).virtual_memory_manager.allocated() == old(self).virtual_memory_manager.allocated()
                        + bytes
                }
                &&& (forall|b: u64| !#[trigger] fits(free, bytes, b)) ==> {
                    &&& r is None
                    &&& final(self).virtual_memory_manager.free_space() == free
                    &&& final(self).virtual_memory_manager.allocated() == old(self).virtual_memory_manager.allocated()
                }
                &&& (exists|b: u64| #[trigger] fits(free, bytes, b)) ==> exists|a: u64| {
                    &&& #[trigger] is_best_fit(free, bytes, a)
                    &&& final(self).virtual_memory_manager.free_space() == carve(free, a, bytes)
                    &&& final(self).virtual_memory_manager.allocated() == old(self).virtual_memory_manager.allocated()
                        + bytes
                    &&& (r is Some ==> r == Some(a))
                    &&& layered(old(self).active_page_table.mapper.tables(), old(self).active_page_table.mapper.p4_frame())
                        && pages_ready(
                        old(self).active_page_table.mapper.tables(),
                        old(self).active_page_table.mapper.p4_frame(),
                        a,
                        ceil_div(size as nat, PAGE_SIZE as nat),
                    ) && frames_ready(old(self).frame_allocator, ceil_div(size as nat, PAGE_SIZE as nat)) ==> {
                        &&& r == Some(a)
                        &&& forall|k: nat|
                            k < ceil_div(size as nat, PAGE_SIZE as nat) ==> leaf_holds(
                                final(self).active_page_table.mapper.tables(),
                                final(self).active_page_table.mapper.p4_frame(),
                                #[trigger] block_page(a, k),
                                entry_value(old(self).frame_allocator.frame_after(k as u64)->Ok_0.number, flags@ | PRESENT),
                            )
                    }
                }
            }),
            forall|q: u64|
                #[trigger] translation(
                    old(self).active_page_table.mapper.tables(),
                    old(self).active_page_table.mapper.p4_frame(),
                    q,
                ) is Some ==> translation(
                    final(self).active_page_table.mapper.tables(),
                    final(self).active_page_table.mapper.p4_frame(),
                    q,
                ) == translation(
                    old(self).active_page_table.mapper.tables(),
                    old(self).active_page_table.mapper.p4_frame(),
                    q,
                ),
            layered(old(self).active_page_table.mapper.tables(), old(self).active_page_table.mapper.p4_frame())
                ==> layered(final(self).active_page_table.mapper.tables(), final(self).active_page_table.mapper.p4_frame()),
            r matches Some(a) ==> (layered(
                old(self).active_page_table.mapper.tables(),
                old(self).active_page_table.mapper.p4_frame(),
            ) ==> forall|k: nat|
                k < ceil_div(size as nat, PAGE_SIZE as nat) ==> #[trigger] translation(
                    final(self).active_page_table.mapper.tables(),
                    final(self).active_page_table.mapper.p4_frame(),
                    block_page(a, k),
                ) is Some && leaf_maps_with(
                    final(self).active_page_table.mapper.tables(),
                    final(self).active_page_table.mapper.p4_frame(),
                    block_page(a, k),
                    flags@ | PRESENT,
                )),
    {
        let flag_bits = flags.bits();
        let page_count = div_ceil(size, PAGE_SIZE);
        let ghost p4 = self.active_page_table.mapper.p4_frame();
        let ghost mem0 = self.active_page_table.mapper.tables();
        let ghost lay = layered(mem0, p4);
        let virtual_alloc = match self.virtual_memory_manager.allocate_pages(page_count) {
            Ok(virtual_alloc) => virtual_alloc,
            Err(_) => {
                return None;
            },
        };
        let ghost alloc0 = self.frame_allocator;
        let ghost cond = lay && pages_ready(mem0, p4, virtual_alloc, page_count as nat) && frames_ready(
            alloc0,
            page_count as nat,
        );
        let mut i: usize = 0;
        while i < page_count
            invariant
                self.wf(),
                i <= page_count,
                page_count == ceil_div(size as nat, PAGE_SIZE as nat),
                mem0 == old(self).active_page_table.mapper.tables(),
                p4 == old(self).active_page_table.mapper.p4_frame(),
                virtual_alloc + page_count * PAGE_SIZE <= u64::MAX,
                is_best_fit(old(self).virtual_memory_manager.free_space(), page_count * PAGE_SIZE, virtual_alloc),
                self.virtual_memory_manager.free_space() == carve(
                    old(self).virtual_memory_manager.free_space(),
                    virtual_alloc,
                    page_count * PAGE_SIZE,
                ),
                self.virtual_memory_manager.allocated() == old(self).virtual_memory_manager.allocated() + page_count
                    * PAGE_SIZE,
                self.active_page_table.mapper.p4_frame() == p4,
                forall|q: u64|
                    #[trigger] translation(mem0, p4, q) is Some ==> translation(
                        self.active_page_table.mapper.tables(),
                        p4,
                        q,
                    ) == translation(mem0, p4, q),
                lay == layered(mem0, p4),
                lay ==> layered(self.active_page_table.mapper.tables(), p4),
                flag_bits == flags@,
                flags@ & ALL_FLAGS == flags@,
                alloc0 == old(self).frame_allocator,
                cond == (lay && pages_ready(mem0, p4, virtual_alloc, page_count as nat) && frames_ready(
                    alloc0,
                    page_count as nat,
                )),
                cond ==> forall|j: u64|
                    j + i < u64::MAX ==> #[trigger] self.frame_allocator.frame_after(j) == alloc0.frame_after(
                        (j + i) as u64,
                    ),
                cond ==> forall|k: nat|
                    i <= k < page_count ==> {
                        &&& walk_tables(self.active_page_table.mapper.tables(), p4, #[trigger] block_page(virtual_alloc, k))
                            == walk_tables(mem0, p4, block_page(virtual_alloc, k))
                        &&& leaf_unused(self.active_page_table.mapper.tables(), p4, block_page(virtual_alloc, k))
                    },
                cond ==> forall|k: nat|
                    k < i ==> leaf_holds(
                        self.active_page_table.mapper.tables(),
                        p4,
                        #[trigger] block_page(virtual_alloc, k),
                        entry_value(alloc0.frame_after(k as u64)->Ok_0.number, flags@ | PRESENT),
                    ),
                lay ==> forall|k: nat|
                    k < i ==> #[trigger] translation(
                        self.active_page_table.mapper.tables(),
                        p4,
                        block_page(virtual_alloc, k),
                    ) is Some && leaf_maps_with(self.active_page_table.mapper.tables(), p4, block_page(virtual_alloc, k), flags@ | PRESENT),
            decreases page_count - i,
        {
            let page_address = virtual_alloc + (i as u64) * (PAGE_SIZE as u64);
            let ghost j = i as nat;
            proof {
                if cond {
                    assert(walk_tables(mem0, p4, block_page(virtual_alloc, j)) is Some);
                    assert(alloc0.frame_after(i as u64) is Ok);
                    assert(self.frame_allocator.frame_after(0) == alloc0.frame_after((0 + i) as u64));
                }
            }
            if 0x0000_8000_0000_0000u64 <= page_address && page_address < 0xffff_8000_0000_0000u64 {
                return None;
            }
            let page = Page::containing_address(page_address);
            assert(page.number == block_page(virtual_alloc, j));
            let ghost alloc_before = self.frame_allocator;
            let frame = match self.frame_allocator.allocate_frame() {
                Ok(frame) => frame,
                Err(_) => {
                    return None;
                },
            };
            if frame.number >= FRAME_NUMBER_LIMIT || !self.active_page_table.mapper.can_map(page) {
                return None;
            }
            let ghost before = self.active_page_table.mapper.tables();
            let ghost alloc_between = self.frame_allocator;
            proof {
                self.active_page_table.mapper.lemma_tables_sized();
            }
            let mapped = self.active_page_table.mapper.map_to(page, frame, flags, &mut self.frame_allocator);
            if mapped.is_err() {
                return None;
            }
            proof {
                if cond {
                    let after = self.active_page_table.mapper.tables();
                    lemma_layered_paths_distinct(before, p4, page.number);
                    assert forall|m: u64| m + (i + 1) < u64::MAX implies #[trigger] self.frame_allocator.frame_after(m)
                        == alloc0.frame_after((m + (i + 1)) as u64) by {
                        assert(alloc_between.frame_after(m) == alloc_before.frame_after((m + 1) as u64));
                        assert(alloc_before.frame_after((m + 1) as u64) == alloc0.frame_after(((m + 1) + i) as u64));
                    }
                    assert forall|k: nat| i + 1 <= k < page_count implies {
                        &&& walk_tables(after, p4, #[trigger] block_page(virtual_alloc, k))
                            == walk_tables(mem0, p4, block_page(virtual_alloc, k))
                        &&& leaf_unused(after, p4, block_page(virtual_alloc, k))
                    } by {
                        assert(walk_tables(mem0, p4, block_page(virtual_alloc, k)) is Some);
                        assert(leaf_slot(mem0, p4, block_page(virtual_alloc, k)) != leaf_slot(mem0, p4, block_page(virtual_alloc, j)));
                        lemma_leaf_write_keeps_other_walks(
                            before,
                            p4,
                            page.number,
                            block_page(virtual_alloc, k),
                            entry_value(frame.number, flags@ | PRESENT),
                        );
                    }
                    assert forall|k: nat| k < i + 1 implies leaf_holds(
                        after,
                        p4,
                        #[trigger] block_page(virtual_alloc, k),
                        entry_value(alloc0.frame_after(k as u64)->Ok_0.number, flags@ | PRESENT),
                    ) by {
                        if k < i {
                            assert(alloc0.frame_after(k as u64) is Ok);
                            lemma_leaf_entry_present(alloc0.frame_after(k as u64)->Ok_0.number, flags@);
                            lemma_keeps_present_leaf(
                                before,
                                after,
                                p4,
                                block_page(virtual_alloc, k),
                                entry_value(alloc0.frame_after(k as u64)->Ok_0.number, flags@ | PRESENT),
                            );
                        }
                    }
                }
                if lay {
                    let after = self.active_page_table.mapper.tables();
                    lemma_layered_paths_distinct(before, p4, page.number);
                    assert(page.number == block_page(virtual_alloc, i as nat));
                    assert(leaf_holds(after, p4, page.number, entry_value(frame.number, flags@ | PRESENT)));
                    assert forall|k: nat| k < i + 1 implies #[trigger] translation(
                        after,
                        p4,
                        block_page(virtual_alloc, k),
                    ) is Some && leaf_maps_with(after, p4, block_page(virtual_alloc, k), flags@ | PRESENT) by {
                        if k < i {
                            assert(translation(before, p4, block_page(virtual_alloc, k)) is Some);
                            assert(leaf_maps_with(before, p4, block_page(virtual_alloc, k), flags@ | PRESENT));
                            let f = choose|f: u64|
                                f < FRAME_NUMBER_LIMIT && #[trigger] leaf_holds(
                                    before,
                                    p4,
                                    block_page(virtual_alloc, k),
                                    entry_value(f, flags@ | PRESENT),
                                );
                            lemma_leaf_entry_present(f, flags@);
                            lemma_keeps_present_leaf(before, after, p4, block_page(virtual_alloc, k), entry_value(f, flags@ | PRESENT));
                        }
                    }
                }
            }
            i = i + 1;
        }
        Some(virtual_alloc)
    }

    /// Allocates a block of physically contiguous frames that holds `size` bytes, of the
    /// smallest order that does, and maps each of its frames to the page of the same number.
    /// The block is none when the allocator has none, or when one of its frames cannot be
    /// mapped: its address is out of range or not canonical, or its page is already mapped.
    /// On layered page tables, each frame of a block handed out is mapped to itself.
    pub fn pmm_identity(&mut self, size: usize, flags: EntryFlags) -> (r: Option<PhysicalAddress>)
        requires
            old(self).wf(),
            size + PAGE_SIZE - 1 <= usize::MAX,
            ceil_div(size as nat, PAGE_SIZE as nat) <= two_to(MAX_ORDER as nat),
        ensures
            final(self).wf(),
            final(self).virtual_memory_manager == old(self).virtual_memory_manager,
            forall|q: u64|
                #[trigger] translation(
                    old(self).active_page_table.mapper.tables(),
                    old(self).active_page_table.mapper.p4_frame(),
                    q,
                ) is Some ==> translation(
                    final(self).active_page_table.mapper.tables(),
                    final(self).active_page_table.mapper.p4_frame(),
                    q,
                ) == translation(
                    old(self).active_page_table.mapper.tables(),
                    old(self).active_page_table.mapper.p4_frame(),
                    q,
                ),
            layered(old(self).active_page_table.mapper.tables(), old(self).active_page_table.mapper.p4_frame())
                ==> layered(final(self).active_page_table.mapper.tables(), final(self).active_page_table.mapper.p4_frame()),
            r matches Some(a) ==> (layered(
                old(self).active_page_table.mapper.tables(),
                old(self).active_page_table.mapper.p4_frame(),
            ) ==> forall|order: nat, k: nat|
                #[trigger] is_block_order(ceil_div(size as nat, PAGE_SIZE as nat), order) && k < two_to(order)
                    ==> translation(
                    final(self).active_page_table.mapper.tables(),
                    final(self).active_page_table.mapper.p4_frame(),
                    #[trigger] block_page(a, k),
                ) == Some(block_page(a, k)) && leaf_holds(
                    final(self).active_page_table.mapper.tables(),
                    final(self).active_page_table.mapper.p4_frame(),
                    block_page(a, k),
                    entry_value(block_page(a, k), flags@ | PRESENT),
                )),
            forall|order: nat|
                #[trigger] is_block_order(ceil_div(size as nat, PAGE_SIZE as nat), order) ==> {
                    &&& r matches Some(a) ==> old(self).frame_allocator.block_for(order as usize) == Ok::<u64, &'static str>(a)
                    &&& match old(self).frame_allocator.block_for(order as usize) {
                        Ok(a) => layered(
                            old(self).active_page_table.mapper.tables(),
                            old(self).active_page_table.mapper.p4_frame(),
                        ) && block_identity_ready(
                            old(self).active_page_table.mapper.tables(),
                            old(self).active_page_table.mapper.p4_frame(),
                            a,
                            order,
                        ) ==> r == Some(a),
                        Err(_) => r is None,
                    }
                },
    {
        let page_count = div_ceil(size, PAGE_SIZE);
        let order = match block_order(page_count) {
            Some(order) => order,
            None => {
                proof {
                    lemma_two_to_monotonic(MAX_ORDER as nat, MAX_ORDER as nat);
                }
                assert(two_to(MAX_ORDER as nat) < page_count);
                return None;
            },
        };
        proof {
            assert forall|o: nat| #[trigger] is_block_order(ceil_div(size as nat, PAGE_SIZE as nat), o) implies o == order by {
                lemma_block_order_unique(page_count as nat, o, order as nat);
            }
        }
        let alloc_start = match self.frame_allocator.allocate_frames(order) {
            Ok(alloc_start) => alloc_start,
            Err(_) => {
                return None;
            },
        };
        let alloc_size = power_of_two(order);
        proof {
            lemma_two_to_monotonic(order as nat, MAX_ORDER as nat);
            reveal_with_fuel(two_to, 11);
        }
        let ghost p4 = self.active_page_table.mapper.p4_frame();
        let ghost mem0 = self.active_page_table.mapper.tables();
        let ghost lay = layered(mem0, p4);
        let ghost cond = lay && block_identity_ready(mem0, p4, alloc_start, order as nat);
        let flag_bits = flags.bits();
        let mut page_number: usize = 0;
        while page_number < alloc_size
            invariant
                self.wf(),
                page_number <= alloc_size <= 1024,
                alloc_size == two_to(order as nat),
                page_count == ceil_div(size as nat, PAGE_SIZE as nat),
                forall|o: nat| #[trigger] is_block_order(page_count as nat, o) ==> o == order,
                old(self).frame_allocator.block_for(order) == Ok::<u64, &'static str>(alloc_start),
                cond == (lay && block_identity_ready(mem0, p4, alloc_start, order as nat)),
                cond ==> forall|k: nat|
                    page_number <= k < alloc_size ==> {
                        &&& walk_tables(self.active_page_table.mapper.tables(), p4, #[trigger] block_page(alloc_start, k))
                            == walk_tables(mem0, p4, block_page(alloc_start, k))
                        &&& leaf_unused(self.active_page_table.mapper.tables(), p4, block_page(alloc_start, k))
                    },
                self.virtual_memory_manager == old(self).virtual_memory_manager,
                mem0 == old(self).active_page_table.mapper.tables(),
                p4 == old(self).active_page_table.mapper.p4_frame(),
                self.active_page_table.mapper.p4_frame() == p4,
                forall|q: u64|
                    #[trigger] translation(mem0, p4, q) is Some ==> translation(
                        self.active_page_table.mapper.tables(),
                        p4,
                        q,
                    ) == translation(mem0, p4, q),
                lay == layered(mem0, p4),
                lay ==> layered(self.active_page_table.mapper.tables(), p4),
                flag_bits == flags@,
                flags@ & ALL_FLAGS == flags@,
                lay ==> forall|k: nat|
                    k < page_number ==> #[trigger] translation(
                        self.active_page_table.mapper.tables(),
                        p4,
                        block_page(alloc_start, k),
                    ) == Some(block_page(alloc_start, k)) && leaf_holds(
                        self.active_page_table.mapper.tables(),
                        p4,
                        block_page(alloc_start, k),
                        entry_value(block_page(alloc_start, k), flags@ | PRESENT),
                    ),
            decreases alloc_size - page_number,
        {
            let offset = (PAGE_SIZE as u64) * (page_number as u64);
            let ghost j = page_number as nat;
            proof {
                if cond {
                    assert(walk_tables(mem0, p4, block_page(alloc_start, j)) is Some);
                }
            }
            if alloc_start > u64::MAX - offset {
                return None;
            }
            let frame = Frame::containing_address(alloc_start + offset);
            if frame.number >= FRAME_NUMBER_LIMIT {
                return None;
            }
            let start = frame.number * (PAGE_SIZE as u64);
            if 0x0000_8000_0000_0000u64 <= start && start < 0xffff_8000_0000_0000u64 {
                return None;
            }
            if !self.active_page_table.mapper.can_map(Page { number: frame.number }) {
                return None;
            }
            let ghost before = self.active_page_table.mapper.tables();
            proof {
                self.active_page_table.mapper.lemma_tables_sized();
            }
            if self.pmm_identity_map(frame, flags).is_err() {
                return None;
            }
            proof {
                if cond {
                    assert forall|k: nat| page_number + 1 <= k < alloc_size implies {
                        &&& walk_tables(self.active_page_table.mapper.tables(), p4, #[trigger] block_page(alloc_start, k))
                            == walk_tables(mem0, p4, block_page(alloc_start, k))
                        &&& leaf_unused(self.active_page_table.mapper.tables(), p4, block_page(alloc_start, k))
                    } by {
                        assert(walk_tables(mem0, p4, block_page(alloc_start, k)) is Some);
                        assert(leaf_slot(mem0, p4, block_page(alloc_start, k)) != leaf_slot(mem0, p4, block_page(alloc_start, j)));
                        lemma_leaf_write_keeps_other_walks(
                            before,
                            p4,
                            frame.number,
                            block_page(alloc_start, k),
                            entry_value(frame.number, flags@ | PRESENT),
                        );
                    }
                }
                if lay {
                    let after = self.active_page_table.mapper.tables();
                    lemma_layered_paths_distinct(before, p4, frame.number);
                    assert(frame.number == block_page(alloc_start, page_number as nat));
                    assert forall|k: nat| k < page_number + 1 implies #[trigger] translation(
                        after,
                        p4,
                        block_page(alloc_start, k),
                    ) == Some(block_page(alloc_start, k)) && leaf_holds(
                        after,
                        p4,
                        block_page(alloc_start, k),
                        entry_value(block_page(alloc_start, k), flags@ | PRESENT),
                    ) by {
                        if k < page_number {
                            assert(translation(before, p4, block_page(alloc_start, k)) == Some(block_page(alloc_start, k)));
                            lemma_leaf_entry_present(block_page(alloc_start, k), flags@);
                            lemma_keeps_present_leaf(
                                before,
                                after,
                                p4,
                                block_page(alloc_start, k),
                                entry_value(block_page(alloc_start, k), flags@ | PRESENT),
                            );
                        }
                    }
                }
            }
            page_number = page_number + 1;
        }
        proof {
            if lay {
                assert forall|o: nat, k: nat|
                    #[trigger] is_block_order(ceil_div(size as nat, PAGE_SIZE as nat), o) && k < two_to(o) implies translation(
                    self.active_page_table.mapper.tables(),
                    p4,
                    #[trigger] block_page(alloc_start, k),
                ) == Some(block_page(alloc_start, k)) && leaf_holds(
                    self.active_page_table.mapper.tables(),
                    p4,
                    block_page(alloc_start, k),
                    entry_value(block_page(alloc_start, k), flags@ | PRESENT),
                ) by {
                    lemma_block_order_unique(ceil_div(size as nat, PAGE_SIZE as nat), o, order as nat);
                }
            }
        }
        Some(alloc_start)
    }

    /// Gives back the block of physically contiguous frames at `address` that holds `size`
    /// bytes, of the smallest order that does, and unmaps the page of each of its frames; the
    /// frames stay with the allocator. It fails when the allocator refuses the block, or when
    /// one of the pages is not canonical or not mapped through a level-1 entry.
    pub fn pmm_free(&mut self, size: usize, address: PhysicalAddress) -> (r: Result<(), &'static str>)
        requires
            old(self).wf(),
            size + PAGE_SIZE - 1 <= usize::MAX,
            ceil_div(size as nat, PAGE_SIZE as nat) <= two_to(MAX_ORDER as nat),
        ensures
            final(self).wf(),
            final(self).virtual_memory_manager == old(self).virtual_memory_manager,
            forall|q: u64|
                #[trigger] translation(
                    old(self).active_page_table.mapper.tables(),
                    old(self).active_page_table.mapper.p4_frame(),
                    q,
                ) is None ==> translation(
                    final(self).active_page_table.mapper.tables(),
                    final(self).active_page_table.mapper.p4_frame(),
                    q,
                ) is None,
            r is Ok ==> forall|order: nat, k: nat|
                #[trigger] is_block_order(ceil_div(size as nat, PAGE_SIZE as nat), order) && k < two_to(order)
                    ==> translation(
                    final(self).active_page_table.mapper.tables(),
                    final(self).active_page_table.mapper.p4_frame(),
                    #[trigger] block_page(address, k),
                ) is None,
            layered(old(self).active_page_table.mapper.tables(), old(self).active_page_table.mapper.p4_frame())
                ==> layered(final(self).active_page_table.mapper.tables(), final(self).active_page_table.mapper.p4_frame()),
            forall|order: nat|
                #[trigger] is_block_order(ceil_div(size as nat, PAGE_SIZE as nat), order) ==> {
                    &&& old(self).frame_allocator.release_of(address, order as usize) is Err ==> {
                        &&& r is Err
                        &&& final(self).active_page_table == old(self).active_page_table
                    }
                    &&& old(self).frame_allocator.release_of(address, order as usize) is Ok && layered(
                        old(self).active_page_table.mapper.tables(),
                        old(self).active_page_table.mapper.p4_frame(),
                    ) && block_mapped(
                        old(self).active_page_table.mapper.tables(),
                        old(self).active_page_table.mapper.p4_frame(),
                        address,
                        order,
                    ) ==> r is Ok
                },
    {
        let page_count = div_ceil(size, PAGE_SIZE);
        let order = match block_order(page_count) {
            Some(order) => order,
            None => {
                proof {
                    lemma_two_to_monotonic(MAX_ORDER as nat, MAX_ORDER as nat);
                }
                assert(two_to(MAX_ORDER as nat) < page_count);
                return Err("pmm: could not free memory");
            },
        };
        proof {
            assert forall|o: nat| #[trigger] is_block_order(ceil_div(size as nat, PAGE_SIZE as nat), o) implies o == order by {
                lemma_block_order_unique(page_count as nat, o, order as nat);
            }
        }
        if self.frame_allocator.deallocate_frames(address, order).is_err() {
            return Err("pmm: could not free memory");
        }
        let freed_size = power_of_two(order);
        proof {
            lemma_two_to_monotonic(order as nat, MAX_ORDER as nat);
            reveal_with_fuel(two_to, 11);
        }
        let ghost p4 = self.active_page_table.mapper.p4_frame();
        let ghost mem0 = self.active_page_table.mapper.tables();
        let ghost cond = layered(mem0, p4) && block_mapped(mem0, p4, address, order as nat);
        let mut page_number: usize = 0;
        while page_number < freed_size
            invariant
                self.wf(),
                page_number <= freed_size <= 1024,
                freed_size == two_to(order as nat),
                is_block_order(page_count as nat, order as nat),
                page_count == ceil_div(size as nat, PAGE_SIZE as nat),
                forall|o: nat| #[trigger] is_block_order(page_count as nat, o) ==> o == order,
                old(self).frame_allocator.release_of(address, order) is Ok,
                cond == (layered(mem0, p4) && block_mapped(mem0, p4, address, order as nat)),
                cond ==> forall|k: nat|
                    page_number <= k < freed_size ==> {
                        &&& walk_tables(self.active_page_table.mapper.tables(), p4, #[trigger] block_page(address, k))
                            == walk_tables(mem0, p4, block_page(address, k))
                        &&& walk_4k(self.active_page_table.mapper.tables(), p4, block_page(address, k))
                            == walk_4k(mem0, p4, block_page(address, k))
                    },
                self.virtual_memory_manager == old(self).virtual_memory_manager,
                mem0 == old(self).active_page_table.mapper.tables(),
                p4 == old(self).active_page_table.mapper.p4_frame(),
                self.active_page_table.mapper.p4_frame() == p4,
                forall|q: u64|
                    #[trigger] translation(mem0, p4, q) is None ==> translation(
                        self.active_page_table.mapper.tables(),
                        p4,
                        q,
                    ) is None,
                forall|k: nat|
                    k < page_number ==> translation(
                        self.active_page_table.mapper.tables(),
                        p4,
                        #[trigger] block_page(address, k),
                    ) is None,
                layered(mem0, p4) ==> layered(self.active_page_table.mapper.tables(), p4),
            decreases freed_size - page_number,
        {
            let offset = (PAGE_SIZE as u64) * (page_number as u64);
            let ghost j = page_number as nat;
            proof {
                if cond {
                    assert(walk_4k(mem0, p4, block_page(address, j)) is Some);
                }
            }
            if address > u64::MAX - offset {
                return Err("pmm: could not free memory");
            }
            let page_address = address + offset;
            if 0x0000_8000_0000_0000u64 <= page_address && page_address < 0xffff_8000_0000_0000u64 {
                return Err("pmm: could not free memory");
            }
            let page = Page::containing_address(page_address);
            assert(page.number == block_page(address, j));
            let ghost cur = self.active_page_table.mapper.tables();
            proof {
                self.active_page_table.mapper.lemma_tables_sized();
                if cond {
                    lemma_translation_is_4k(cur, p4, page.number);
                }
            }
            if !self.active_page_table.mapper.is_mapped_4k(page) {
                return Err("pmm: could not free memory");
            }
            self.active_page_table.mapper.unmap_no_dealloc(&page);
            proof {
                if cond {
                    assert forall|k: nat| page_number + 1 <= k < freed_size implies {
                        &&& walk_tables(self.active_page_table.mapper.tables(), p4, #[trigger] block_page(address, k))
                            == walk_tables(mem0, p4, block_page(address, k))
                        &&& walk_4k(self.active_page_table.mapper.tables(), p4, block_page(address, k))
                            == walk_4k(mem0, p4, block_page(address, k))
                    } by {
                        assert(walk_4k(mem0, p4, block_page(address, k)) is Some);
                        assert(leaf_slot(mem0, p4, block_page(address, k)) != leaf_slot(mem0, p4, block_page(address, j)));
                        lemma_leaf_write_keeps_other_walks(cur, p4, page.number, block_page(address, k), 0);
                    }
                }
            }
            page_number = page_number + 1;
        }
        proof {
            assert forall|o: nat, k: nat|
                #[trigger] is_block_order(ceil_div(size as nat, PAGE_SIZE as nat), o) && k < two_to(o) implies translation(
                    self.active_page_table.mapper.tables(),
                    p4,
                    #[trigger] block_page(address, k),
                ) is None by {
                lemma_block_order_unique(page_count as nat, o, order as nat);
            }
        }
        Ok(())
    }

    /// Maps the page of the same number to `frame`.
    pub fn pmm_identity_map(&mut self, frame: Frame, flags: EntryFlags) -> (r: Result<(), &'static str>)
        requires
            old(self).wf(),
            frame.number < FRAME_NUMBER_LIMIT,
            is_canonical((frame.number * PAGE_SIZE) as u64),
            no_huge_on_path(
                old(self).active_page_table.mapper.tables(),
                old(self).active_page_table.mapper.p4_frame(),
                frame.number,
            ),
            leaf_unused(
                old(self).active_page_table.mapper.tables(),
                old(self).active_page_table.mapper.p4_frame(),
                frame.number,
            ),
        ensures
            table_frames_ready(
                old(self).active_page_table.mapper.tables(),
                old(self).active_page_table.mapper.p4_frame(),
                frame.number,
                old(self).frame_allocator,
                0,
            ) ==> r is Ok,
            final(self).wf(),
            keeps_present(old(self).active_page_table.mapper.tables(), final(self).active_page_table.mapper.tables()),
            r is Ok && existing_path_distinct(
                old(self).active_page_table.mapper.tables(),
                old(self).active_page_table.mapper.p4_frame(),
                frame.number,
            ) ==> {
                &&& walk_tables(
                    final(self).active_page_table.mapper.tables(),
                    final(self).active_page_table.mapper.p4_frame(),
                    frame.number,
                ) is Some
                &&& entry_at(
                    final(self).active_page_table.mapper.tables(),
                    level1_table(
                        final(self).active_page_table.mapper.tables(),
                        final(self).active_page_table.mapper.p4_frame(),
                        frame.number,
                    ),
                    table_index(frame.number, 1),
                ) == entry_value(frame.number, flags@ | PRESENT)
            },
            final(self).virtual_memory_manager == old(self).virtual_memory_manager,
            final(self).active_page_table.mapper.p4_frame() == old(self).active_page_table.mapper.p4_frame(),
            forall|q: u64|
                #[trigger] translation(
                    old(self).active_page_table.mapper.tables(),
                    old(self).active_page_table.mapper.p4_frame(),
                    q,
                ) is Some ==> translation(
                    final(self).active_page_table.mapper.tables(),
                    final(self).active_page_table.mapper.p4_frame(),
                    q,
                ) == translation(
                    old(self).active_page_table.mapper.tables(),
                    old(self).active_page_table.mapper.p4_frame(),
                    q,
                ),
            r is Ok && existing_path_distinct(
                old(self).active_page_table.mapper.tables(),
                old(self).active_page_table.mapper.p4_frame(),
                frame.number,
            ) ==> translation(
                final(self).active_page_table.mapper.tables(),
                final(self).active_page_table.mapper.p4_frame(),
                frame.number,
            ) == Some(frame.number),
            layered(old(self).active_page_table.mapper.tables(), old(self).active_page_table.mapper.p4_frame())
                ==> layered(final(self).active_page_table.mapper.tables(), final(self).active_page_table.mapper.p4_frame()),
            r is Ok && layered(
                old(self).active_page_table.mapper.tables(),
                old(self).active_page_table.mapper.p4_frame(),
            ) ==> translation(
                final(self).active_page_table.mapper.tables(),
                final(self).active_page_table.mapper.p4_frame(),
                frame.number,
            ) == Some(frame.number),
            layered(
                old(self).active_page_table.mapper.tables(),
                old(self).active_page_table.mapper.p4_frame(),
            ) ==> forall|q: u64|
                (walk_tables(
                    final(self).active_page_table.mapper.tables(),
                    final(self).active_page_table.mapper.p4_frame(),
                    q,
                ) is Some ==> leaf_slot(
                    final(self).active_page_table.mapper.tables(),
                    final(self).active_page_table.mapper.p4_frame(),
                    q,
                ) != leaf_slot(
                    final(self).active_page_table.mapper.tables(),
                    final(self).active_page_table.mapper.p4_frame(),
                    frame.number,
                )) ==> #[trigger] translation(
                    final(self).active_page_table.mapper.tables(),
                    final(self).active_page_table.mapper.p4_frame(),
                    q,
                ) == translation(
                    old(self).active_page_table.mapper.tables(),
                    old(self).active_page_table.mapper.p4_frame(),
                    q,
                ),
            walk_tables(
                old(self).active_page_table.mapper.tables(),
                old(self).active_page_table.mapper.p4_frame(),
                frame.number,
            ) is Some ==> {
                &&& r is Ok
                &&& final(self).active_page_table.mapper.tables() == old(self).active_page_table.mapper.tables().insert(
                    level1_table(
                        old(self).active_page_table.mapper.tables(),
                        old(self).active_page_table.mapper.p4_frame(),
                        frame.number,
                    ),
                    table_at(
                        old(self).active_page_table.mapper.tables(),
                        level1_table(
                            old(self).active_page_table.mapper.tables(),
                            old(self).active_page_table.mapper.p4_frame(),
                            frame.number,
                        ),
                    ).update(table_index(frame.number, 1) as int, entry_value(frame.number, flags@ | PRESENT)),
                )
            },
    {
        self.active_page_table.mapper.identity_map(frame, flags, &mut self.frame_allocator)
    }
}

} // verus!
