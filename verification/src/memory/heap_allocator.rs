use core::alloc::Layout;
use linked_list_allocator::Heap;
use vstd::prelude::*;
use crate::memory::PAGE_SIZE;
use crate::memory::physical_memory::{Frame, FrameAllocator};
use crate::memory::virtual_memory::paging::{ActivePageTable, Page, is_canonical, table_index, lemma_table_index_bound};
use crate::memory::virtual_memory::paging::entry::{EntryFlags, FRAME_NUMBER_LIMIT, PRESENT, WRITABLE, entry_value};
use crate::memory::virtual_memory::paging::mapper::{
    TableMemory, layered, translation, keeps_present, no_huge_on_path, leaf_unused, walk_tables, level1_table, table_at, entry_at,
    lemma_layered_paths_distinct, lemma_keeps_present_walk, lemma_table_entry_value,
};

verus! {

/// Where the kernel heap starts, before the higher-half offset is added.
pub const HEAP_START: u64 = 0x4444_4444_0000;

/// The size of the kernel heap in bytes.
pub const HEAP_SIZE: usize = 1000 * 1024;

/// The sizes of the blocks that the slab allocator keeps lists of.
pub open spec fn block_sizes() -> Seq<usize> {
    seq![8usize, 16, 32, 64, 128, 256, 512, 1024, 2048]
}

/// The number of bytes a block must have to hold `size` bytes aligned to `align`.
pub open spec fn required_block_size(size: usize, align: usize) -> usize {
    if size >= align {
        size
    } else {
        align
    }
}

/// The index of the smallest block size that holds an allocation of `size` bytes aligned to
/// `align`; none when the allocation is larger than every block.
pub open spec fn size_class(size: usize, align: usize) -> Option<usize> {
    let required = required_block_size(size, align);
    if required <= 8 {
        Some(0)
    } else if required <= 16 {
        Some(1)
    } else if required <= 32 {
        Some(2)
    } else if required <= 64 {
        Some(3)
    } else if required <= 128 {
        Some(4)
    } else if required <= 256 {
        Some(5)
    } else if required <= 512 {
        Some(6)
    } else if required <= 1024 {
        Some(7)
    } else if required <= 2048 {
        Some(8)
    } else {
        None
    }
}

/// The index of the smallest block size that holds an allocation of `size` bytes aligned to
/// `align`; none when the allocation is larger than every block.
pub fn list_index(size: usize, align: usize) -> (r: Option<usize>)
    ensures
        r == size_class(size, align),
        match r {
            Some(i) => i < block_sizes().len() && block_sizes()[i as int] >= required_block_size(size, align),
            None => forall|k: int| 0 <= k < block_sizes().len() ==> #[trigger] block_sizes()[k] < required_block_size(size, align),
        },
{
    let sizes: [usize; 9] = [8, 16, 32, 64, 128, 256, 512, 1024, 2048];
    let required = if size >= align {
        size
    } else {
        align
    };
    let mut i: usize = 0;
    while i < 9
        invariant
            i <= 9,
            sizes@ == block_sizes(),
            required == required_block_size(size, align),
            forall|k: int| 0 <= k < i ==> #[trigger] block_sizes()[k] < required,
        decreases 9 - i,
    {
        if sizes[i] >= required {
            assert(block_sizes()[0] == 8 && block_sizes()[1] == 16 && block_sizes()[2] == 32);
            assert(block_sizes()[3] == 64 && block_sizes()[4] == 128 && block_sizes()[5] == 256);
            assert(block_sizes()[6] == 512 && block_sizes()[7] == 1024 && block_sizes()[8] == 2048);
            return Some(i);
        }
        i = i + 1;
    }
    assert(block_sizes()[8] == 2048);
    None
}

/// Page `q` is mapped through a level-1 entry to some frame, present and writable.
pub open spec fn mapped_writable(mem: TableMemory, p4: u64, q: u64) -> bool {
    &&& walk_tables(mem, p4, q) is Some
    &&& exists|f: u64|
        f < FRAME_NUMBER_LIMIT && entry_at(mem, level1_table(mem, p4, q), table_index(q, 1))
            == #[trigger] entry_value(f, PRESENT | WRITABLE)
}

/// Maps one page of the kernel heap to `frame`, present and writable. It fails, changing
/// nothing, when the frame is out of range or the page cannot be mapped: a huge page is on
/// its walk, or its level-1 entry is in use. It fails as well when a table that the page
/// needs cannot be made.
pub fn map_heap_page<A: FrameAllocator>(page_table: &mut ActivePageTable, page: Page, frame: Frame, frame_allocator: &mut A) -> (r: Result<(), &'static str>)
    requires
        old(page_table).mapper.wf(),
        old(frame_allocator).wf_allocator(),
    ensures
        final(page_table).mapper.wf(),
        final(frame_allocator).wf_allocator(),
        final(page_table).mapper.p4_frame() == old(page_table).mapper.p4_frame(),
        keeps_present(old(page_table).mapper.tables(), final(page_table).mapper.tables()),
        forall|q: u64|
            #[trigger] translation(old(page_table).mapper.tables(), old(page_table).mapper.p4_frame(), q) is Some
                ==> translation(final(page_table).mapper.tables(), final(page_table).mapper.p4_frame(), q)
                == translation(old(page_table).mapper.tables(), old(page_table).mapper.p4_frame(), q),
        layered(old(page_table).mapper.tables(), old(page_table).mapper.p4_frame()) ==> layered(
            final(page_table).mapper.tables(),
            final(page_table).mapper.p4_frame(),
        ),
        r is Err ==> r == Err::<(), &'static str>("mm: heap page cannot be mapped"),
        !(frame.number < FRAME_NUMBER_LIMIT && no_huge_on_path(
            old(page_table).mapper.tables(),
            old(page_table).mapper.p4_frame(),
            page.number,
        ) && leaf_unused(old(page_table).mapper.tables(), old(page_table).mapper.p4_frame(), page.number)) ==> {
            &&& r is Err
            &&& final(page_table).mapper.tables() == old(page_table).mapper.tables()
        },
        frame.number < FRAME_NUMBER_LIMIT && no_huge_on_path(
            old(page_table).mapper.tables(),
            old(page_table).mapper.p4_frame(),
            page.number,
        ) && leaf_unused(old(page_table).mapper.tables(), old(page_table).mapper.p4_frame(), page.number)
            && walk_tables(old(page_table).mapper.tables(), old(page_table).mapper.p4_frame(), page.number) is Some
            ==> {
            &&& r is Ok
            &&& final(page_table).mapper.tables() == old(page_table).mapper.tables().insert(
                level1_table(old(page_table).mapper.tables(), old(page_table).mapper.p4_frame(), page.number),
                table_at(
                    old(page_table).mapper.tables(),
                    level1_table(old(page_table).mapper.tables(), old(page_table).mapper.p4_frame(), page.number),
                ).update(table_index(page.number, 1) as int, entry_value(frame.number, PRESENT | WRITABLE)),
            )
        },
        r is Ok && layered(old(page_table).mapper.tables(), old(page_table).mapper.p4_frame()) ==> {
            &&& walk_tables(final(page_table).mapper.tables(), final(page_table).mapper.p4_frame(), page.number) is Some
            &&& entry_at(
                final(page_table).mapper.tables(),
                level1_table(final(page_table).mapper.tables(), final(page_table).mapper.p4_frame(), page.number),
                table_index(page.number, 1),
            ) == entry_value(frame.number, PRESENT | WRITABLE)
            &&& translation(final(page_table).mapper.tables(), final(page_table).mapper.p4_frame(), page.number)
                == Some(frame.number)
        },
{
    if frame.number >= FRAME_NUMBER_LIMIT || !page_table.mapper.can_map(page) {
        return Err("mm: heap page cannot be mapped");
    }
    let flags = EntryFlags::from_bits_truncate(PRESENT).union(EntryFlags::from_bits_truncate(WRITABLE));
    proof {
        assert(((1u64 & 0x8000_0000_0000_01ffu64) | (2u64 & 0x8000_0000_0000_01ffu64)) | 1u64 == 1u64 | 2u64)
            by (bit_vector);
        if layered(page_table.mapper.tables(), page_table.mapper.p4_frame()) {
            lemma_layered_paths_distinct(page_table.mapper.tables(), page_table.mapper.p4_frame(), page.number);
        }
    }
    match page_table.mapper.map_to(page, frame, flags, frame_allocator) {
        Ok(()) => Ok(()),
        Err(_) => Err("mm: heap page cannot be mapped"),
    }
}

/// Maps the pages of the kernel heap, from `HEAP_START` seen through `hhdm_offset`, each to a
/// frame of `frame_allocator`, present and writable. It fails when the allocator runs out of
/// frames, when a frame is out of range, when the heap is not canonical, or when a page is
/// already mapped; the pages mapped until then stay mapped. When it succeeds on layered page
/// tables, every page of the heap is mapped, present and writable. Each page is mapped as
/// `map_heap_page` maps it.
pub fn init_heap<A: FrameAllocator>(page_table: &mut ActivePageTable, frame_allocator: &mut A, hhdm_offset: u64) -> (r: Result<(), &'static str>)
    requires
        old(page_table).mapper.wf(),
        old(frame_allocator).wf_allocator(),
        HEAP_START + hhdm_offset + HEAP_SIZE <= u64::MAX,
    ensures
        final(page_table).mapper.wf(),
        final(frame_allocator).wf_allocator(),
        final(page_table).mapper.p4_frame() == old(page_table).mapper.p4_frame(),
        forall|q: u64|
            #[trigger] translation(old(page_table).mapper.tables(), old(page_table).mapper.p4_frame(), q) is Some
                ==> translation(final(page_table).mapper.tables(), final(page_table).mapper.p4_frame(), q)
                == translation(old(page_table).mapper.tables(), old(page_table).mapper.p4_frame(), q),
            layered(old(page_table).mapper.tables(), old(page_table).mapper.p4_frame()) ==> layered(
                final(page_table).mapper.tables(),
                final(page_table).mapper.p4_frame(),
            ),
            r is Ok && layered(old(page_table).mapper.tables(), old(page_table).mapper.p4_frame()) ==> forall|q: u64|
                (HEAP_START + hhdm_offset) / PAGE_SIZE as int <= q <= (HEAP_START + hhdm_offset + HEAP_SIZE - 1)
                    / PAGE_SIZE as int ==> #[trigger] translation(
                    final(page_table).mapper.tables(),
                    final(page_table).mapper.p4_frame(),
                    q,
                ) is Some && mapped_writable(final(page_table).mapper.tables(), final(page_table).mapper.p4_frame(), q),
            (r matches Err(e) && e@ == "mm: the heap is not canonical"@) <==> !(is_canonical(
                (HEAP_START + hhdm_offset) as u64,
            ) && is_canonical((HEAP_START + hhdm_offset + HEAP_SIZE - 1) as u64)),
{
    let heap_start = HEAP_START + hhdm_offset;
    let heap_end = heap_start + HEAP_SIZE as u64 - 1;
    if 0x0000_8000_0000_0000u64 <= heap_start && heap_start < 0xffff_8000_0000_0000u64 {
        return Err("mm: the heap is not canonical");
    }
    if 0x0000_8000_0000_0000u64 <= heap_end && heap_end < 0xffff_8000_0000_0000u64 {
        return Err("mm: the heap is not canonical");
    }
    let heap_start_page = Page::containing_address(heap_start);
    let heap_end_page = Page::containing_address(heap_end);
    let mut page_range = Page::range_inclusive(heap_start_page, heap_end_page);
    let ghost p4 = page_table.mapper.p4_frame();
    let ghost mem0 = page_table.mapper.tables();
    let ghost lay = layered(mem0, p4);
    loop
        invariant
            page_table.mapper.wf(),
            frame_allocator.wf_allocator(),
            page_table.mapper.p4_frame() == p4,
            p4 == old(page_table).mapper.p4_frame(),
            mem0 == old(page_table).mapper.tables(),
            page_range.last_number() == heap_end_page.number,
            page_range.next_number() <= heap_end_page.number + 1,
            heap_end_page.number < u64::MAX,
            forall|q: u64|
                #[trigger] translation(mem0, p4, q) is Some ==> translation(page_table.mapper.tables(), p4, q)
                    == translation(mem0, p4, q),
            lay == layered(mem0, p4),
            lay ==> layered(page_table.mapper.tables(), p4),
            heap_start_page.number <= page_range.next_number(),
            heap_start == HEAP_START + hhdm_offset,
            heap_end == HEAP_START + hhdm_offset + HEAP_SIZE - 1,
            is_canonical(heap_start) && is_canonical(heap_end),
            heap_start_page.number == (HEAP_START + hhdm_offset) / PAGE_SIZE as int,
            heap_end_page.number == (HEAP_START + hhdm_offset + HEAP_SIZE - 1) / PAGE_SIZE as int,
            lay ==> forall|q: u64|
                heap_start_page.number <= q < page_range.next_number() ==> #[trigger] translation(
                    page_table.mapper.tables(),
                    p4,
                    q,
                ) is Some && mapped_writable(page_table.mapper.tables(), p4, q),
        ensures
            page_table.mapper.wf(),
            frame_allocator.wf_allocator(),
            page_table.mapper.p4_frame() == p4,
            forall|q: u64|
                #[trigger] translation(mem0, p4, q) is Some ==> translation(page_table.mapper.tables(), p4, q)
                    == translation(mem0, p4, q),
            lay ==> layered(page_table.mapper.tables(), p4),
            lay ==> forall|q: u64|
                heap_start_page.number <= q <= heap_end_page.number ==> #[trigger] translation(
                    page_table.mapper.tables(),
                    p4,
                    q,
                ) is Some && mapped_writable(page_table.mapper.tables(), p4, q),
        decreases heap_end_page.number + 1 - page_range.next_number(),
    {
        let page = match page_range.next() {
            Some(page) => page,
            None => {
                break;
            },
        };
        let frame = match frame_allocator.allocate_frame() {
            Ok(frame) => frame,
            Err(_) => {
                proof {
                    reveal_strlit("Frame allocation failed");
                    reveal_strlit("mm: the heap is not canonical");
                    assert("Frame allocation failed"@ != "mm: the heap is not canonical"@) by {
                        assert("Frame allocation failed"@[0] != "mm: the heap is not canonical"@[0]);
                    }
                }
                return Err("Frame allocation failed");
            },
        };
        proof {
            reveal_strlit("mm: heap page cannot be mapped");
            reveal_strlit("mm: the heap is not canonical");
            assert("mm: heap page cannot be mapped"@ != "mm: the heap is not canonical"@) by {
                assert("mm: heap page cannot be mapped"@.len() != "mm: the heap is not canonical"@.len());
            }
        }
        let ghost before = page_table.mapper.tables();
        if map_heap_page(page_table, page, frame, frame_allocator).is_err() {
            return Err("mm: heap page cannot be mapped");
        }
        proof {
            if lay {
                let after = page_table.mapper.tables();
                assert forall|q: u64| heap_start_page.number <= q < page_range.next_number() implies #[trigger] translation(
                    after,
                    p4,
                    q,
                ) is Some && mapped_writable(after, p4, q) by {
                    if q < page.number {
                        assert(translation(before, p4, q) is Some);
                        assert(mapped_writable(before, p4, q));
                        let f = choose|f: u64|
                            f < FRAME_NUMBER_LIMIT && entry_at(before, level1_table(before, p4, q), table_index(q, 1))
                                == #[trigger] entry_value(f, PRESENT | WRITABLE);
                        lemma_table_entry_value(f);
                        lemma_keeps_present_walk(before, after, p4, q);
                        lemma_table_index_bound(q, 1);
                        assert(entry_at(after, level1_table(after, p4, q), table_index(q, 1)) == entry_value(
                            f,
                            PRESENT | WRITABLE,
                        ));
                    } else {
                        assert(q == page.number);
                        lemma_table_entry_value(frame.number);
                    }
                }
            }
        }
    }
    Ok(())
}

#[verifier::external_type_specification]
#[verifier::external_body]
pub struct ExHeap(linked_list_allocator::Heap);

/// `linked_list_allocator::Heap::empty`: a heap with no memory yet, at bottom 0 and of size 0,
/// whose allocations all fail.
#[verifier::external_body]
fn empty_heap() -> (r: Heap)
    ensures
        heap_bottom(r) == 0,
        heap_size(r) == 0,
        forall|size: usize, align: usize| #[trigger] first_fit_chunk(r, size, align) is None,
{
    Heap::empty()
}

/// The bottom address of the heap's memory.
pub uninterp spec fn heap_bottom(heap: Heap) -> usize;

/// What first-fit allocation of `size` bytes aligned to `align` gives from the heap: the start
/// of the chunk taken from the first of its free holes, in address order, that can hold them;
/// none when no hole can.
pub uninterp spec fn first_fit_chunk(heap: Heap, size: usize, align: usize) -> Option<u64>;

/// The size in bytes of the heap's memory.
pub uninterp spec fn heap_size(heap: Heap) -> usize;

/// `linked_list_allocator::Heap::bottom`: the bottom address of the heap's memory.
#[verifier::external_body]
fn fallback_bottom(heap: &Heap) -> (r: usize)
    ensures
        r == heap_bottom(*heap),
{
    heap.bottom()
}

/// `linked_list_allocator::Heap::size`: the size in bytes of the heap's memory.
#[verifier::external_body]
fn fallback_size(heap: &Heap) -> (r: usize)
    ensures
        r == heap_size(*heap),
{
    heap.size()
}

/// `linked_list_allocator::Heap::allocate_first_fit` on the layout of `size` bytes aligned to
/// `align`: the start of the first free chunk of the heap that fits, now taken out of it; none
/// when no chunk fits or when `size` and `align` make no layout. The answer is named
/// `first_fit_chunk` of the heap before the call; of every such chunk it is stated that its
/// address is not null, is a multiple of `align`, and that the `size` bytes from it lie within
/// the heap's memory, which stays where it was. The crate keeps its holes inside that memory,
/// rounds the size up to a multiple of 8 of at least 16 bytes, and adds the alignment and the
/// size to a hole's address without a check; the sizes that would overflow in either are left
/// out.
#[verifier::external_body]
fn heap_allocate_first_fit(heap: &mut Heap, size: usize, align: usize) -> (r: Option<u64>)
    requires
        size + align + 16 <= isize::MAX,
        heap_bottom(*old(heap)) + heap_size(*old(heap)) + size + align + 64 <= usize::MAX,
    ensures
        r == first_fit_chunk(*old(heap), size, align),
        heap_bottom(*final(heap)) == heap_bottom(*old(heap)),
        heap_size(*final(heap)) == heap_size(*old(heap)),
        fallback_chunk(r, size, align, heap_bottom(*old(heap)) as int, heap_bottom(*old(heap)) + heap_size(*old(heap))),
{
    match Layout::from_size_align(size, align) {
        Ok(layout) => match heap.allocate_first_fit(layout) {
            Ok(chunk) => Some(chunk.addr().get() as u64),
            Err(_) => None,
        },
        Err(_) => None,
    }
}

/// The free lists after the last block of list `i` was handed out.
pub open spec fn taken(lists: Seq<Seq<u64>>, i: int) -> Seq<Seq<u64>> {
    lists.update(i, lists[i].drop_last())
}

/// The free lists after the block at `addr` was given back to list `i`.
pub open spec fn returned(lists: Seq<Seq<u64>>, i: int, addr: u64) -> Seq<Seq<u64>> {
    lists.update(i, lists[i].push(addr))
}

/// What any chunk of `size` bytes from the fallback heap is: a non-null address that is a
/// multiple of `align`, with the `size` bytes from it within the heap's memory, from `bottom`
/// up to `top`.
pub open spec fn fallback_chunk(r: Option<u64>, size: usize, align: usize, bottom: int, top: int) -> bool {
    r matches Some(a) ==> a != 0 && align > 0 && a as int % align as int == 0 && bottom <= a && a + size <= top
}

/// The top of the fallback heap leaves room for any chunk of `size` bytes aligned to
/// `align`, and for any block.
pub open spec fn heap_has_headroom(top: int, size: usize, align: usize) -> bool {
    top + size + align + 2 * PAGE_SIZE <= usize::MAX
}

/// The outcome of handing out `size` bytes aligned to `align` from `pre`, giving `r`.
pub open spec fn allocation_outcome(pre: SlabAllocator, post: SlabAllocator, size: usize, align: usize, r: Option<u64>) -> bool {
    &&& post.wf()
    &&& post.allocated() == pre.allocated() + size
    &&& post.fallback_start() == pre.fallback_start()
    &&& post.fallback_end() == pre.fallback_end()
    &&& match size_class(size, align) {
        Some(i) => if pre.free_lists()[i as int].len() > 0 {
            &&& r == Some(pre.free_lists()[i as int].last())
            &&& post.free_lists() == taken(pre.free_lists(), i as int)
        } else {
            &&& post.free_lists() == pre.free_lists()
            &&& r == pre.fallback_answer(block_sizes()[i as int], block_sizes()[i as int])
            &&& fallback_chunk(r, block_sizes()[i as int], block_sizes()[i as int], pre.fallback_start(), pre.fallback_end())
        },
        None => {
            &&& post.free_lists() == pre.free_lists()
            &&& r == pre.fallback_answer(size, align)
            &&& fallback_chunk(r, size, align, pre.fallback_start(), pre.fallback_end())
        },
    }
}

/// The allocator of the kernel heap: for each block size a list of free blocks, and a general
/// heap for what no block size holds and for blocks that no list has yet.
pub struct SlabAllocator {
    list_heads: Vec<Vec<u64>>,
    /// The heap that serves what the lists cannot. It starts empty; the kernel gives it its
    /// memory (`Heap::init`, `Heap::extend`) and takes back the blocks that no list keeps
    /// (`Heap::deallocate`).
    pub fallback_allocator: Heap,
    allocated_bytes: usize,
}

impl SlabAllocator {
    /// The free blocks of each block size; a list hands out its last block first.
    pub closed spec fn free_lists(&self) -> Seq<Seq<u64>> {
        Seq::new(self.list_heads@.len(), |i: int| self.list_heads@[i]@)
    }

    /// What the fallback heap answers, first fit, to a request for `size` bytes aligned to
    /// `align`.
    pub closed spec fn fallback_answer(&self, size: usize, align: usize) -> Option<u64> {
        first_fit_chunk(self.fallback_allocator, size, align)
    }

    /// The bottom of the fallback heap's memory.
    pub closed spec fn fallback_start(&self) -> int {
        heap_bottom(self.fallback_allocator) as int
    }

    /// The top of the fallback heap's memory: the address just past it.
    pub closed spec fn fallback_end(&self) -> int {
        heap_bottom(self.fallback_allocator) + heap_size(self.fallback_allocator)
    }

    /// The number of bytes handed out and not given back.
    pub closed spec fn allocated(&self) -> nat {
        self.allocated_bytes as nat
    }

    /// There is one free list per block size.
    pub closed spec fn wf(&self) -> bool {
        self.list_heads@.len() == block_sizes().len()
    }

    /// An allocator with empty free lists, an empty fallback heap and nothing handed out.
    pub fn new() -> (r: Self)
        ensures
            r.wf(),
            r.allocated() == 0,
            r.free_lists() == Seq::new(block_sizes().len(), |i: int| Seq::<u64>::empty()),
            r.fallback_start() == 0,
            r.fallback_end() == 0,
            forall|size: usize, align: usize| #[trigger] r.fallback_answer(size, align) is None,
    {
        let mut list_heads: Vec<Vec<u64>> = Vec::new();
        let mut i: usize = 0;
        while i < 9
            invariant
                i <= 9,
                list_heads@.len() == i,
                forall|k: int| 0 <= k < i ==> (#[trigger] list_heads@[k])@.len() == 0,
            decreases 9 - i,
        {
            list_heads.push(Vec::new());
            i = i + 1;
        }
        let r = SlabAllocator { list_heads, fallback_allocator: empty_heap(), allocated_bytes: 0 };
        assert(block_sizes().len() == 9);
        assert forall|k: int| 0 <= k < 9 implies r.free_lists()[k] =~= Seq::<u64>::empty() by {
            assert(r.list_heads@[k]@.len() == 0);
        }
        assert(r.free_lists() =~= Seq::new(block_sizes().len(), |i: int| Seq::<u64>::empty()));
        r
    }

    /// The number of bytes handed out and not given back.
    pub fn allocated_bytes(&self) -> (r: usize)
        ensures
            r == self.allocated(),
    {
        self.allocated_bytes
    }

    /// The size and alignment that the fallback heap is asked for on behalf of an allocation
    /// of `size` bytes aligned to `align`: a whole block, aligned to its size, where a block
    /// size holds it, else the allocation itself.
    pub fn fallback_request(size: usize, align: usize) -> (r: (usize, usize))
        ensures
            r == match size_class(size, align) {
                Some(i) => (block_sizes()[i as int], block_sizes()[i as int]),
                None => (size, align),
            },
    {
        let sizes: [usize; 9] = [8, 16, 32, 64, 128, 256, 512, 1024, 2048];
        match list_index(size, align) {
            Some(index) => {
                assert(sizes@ == block_sizes());
                (sizes[index], sizes[index])
            },
            None => (size, align),
        }
    }

    /// Asks the fallback heap, once, for `size` bytes aligned to `align`.
    pub fn fallback_alloc(&mut self, size: usize, align: usize) -> (r: Option<u64>)
        requires
            old(self).wf(),
            size + align + 16 <= isize::MAX,
            old(self).fallback_end() + size + align + 64 <= usize::MAX,
        ensures
            final(self).wf(),
            final(self).free_lists() == old(self).free_lists(),
            final(self).allocated() == old(self).allocated(),
            final(self).fallback_start() == old(self).fallback_start(),
            final(self).fallback_end() == old(self).fallback_end(),
            r == old(self).fallback_answer(size, align),
            fallback_chunk(r, size, align, old(self).fallback_start(), old(self).fallback_end()),
    {
        heap_allocate_first_fit(&mut self.fallback_allocator, size, align)
    }

    /// Asks the fallback heap for `size` bytes aligned to `align` when its top leaves room
    /// for them; none, with nothing changed, when it does not.
    pub fn fallback_alloc_checked(&mut self, size: usize, align: usize) -> (r: Option<u64>)
        requires
            old(self).wf(),
            size + align + 16 <= isize::MAX,
        ensures
            final(self).wf(),
            final(self).free_lists() == old(self).free_lists(),
            final(self).allocated() == old(self).allocated(),
            final(self).fallback_start() == old(self).fallback_start(),
            final(self).fallback_end() == old(self).fallback_end(),
            fallback_chunk(r, size, align, old(self).fallback_start(), old(self).fallback_end()),
            heap_has_headroom(old(self).fallback_end(), size, align) ==> r == old(self).fallback_answer(size, align),
            !heap_has_headroom(old(self).fallback_end(), size, align) ==> r is None && *final(self) == *old(self),
    {
        let bottom = fallback_bottom(&self.fallback_allocator);
        let heap_size = fallback_size(&self.fallback_allocator);
        if bottom > usize::MAX - heap_size || bottom + heap_size > usize::MAX - size - align - 2 * PAGE_SIZE {
            return None;
        }
        self.fallback_alloc(size, align)
    }

    /// Hands out `size` bytes aligned to `align` and counts them. Where a block size holds
    /// them, the block is the last of that size's free list; when that list is empty, and for
    /// larger allocations, the fallback heap is asked for a block (`fallback_request`). None
    /// means that the fallback heap had nothing that fits: the kernel then extends it and
    /// asks it again (`fallback_alloc`).
    pub fn allocate(&mut self, size: usize, align: usize) -> (r: Option<u64>)
        requires
            old(self).wf(),
            old(self).allocated() + size <= usize::MAX,
            size + align + 16 <= isize::MAX,
            heap_has_headroom(old(self).fallback_end(), size, align),
        ensures
            allocation_outcome(*old(self), *final(self), size, align, r),
    {
        self.allocated_bytes = self.allocated_bytes + size;
        match list_index(size, align) {
            Some(index) => {
                let ghost lists = self.free_lists();
                match self.list_heads[index].pop() {
                    Some(block) => {
                        assert(self.free_lists() =~= taken(lists, index as int));
                        Some(block)
                    },
                    None => {
                        assert(self.free_lists() =~= lists);
                        let (block_size, block_align) = Self::fallback_request(size, align);
                        assert(block_size <= 2048);
                        self.fallback_alloc(block_size, block_align)
                    },
                }
            },
            None => self.fallback_alloc(size, align),
        }
    }

    /// Hands out `size` bytes aligned to `align` as `allocate` does when the fallback heap's
    /// top leaves room for them; none, with nothing changed, when it does not.
    pub fn allocate_checked(&mut self, size: usize, align: usize) -> (r: Option<u64>)
        requires
            old(self).wf(),
            old(self).allocated() + size <= usize::MAX,
            size + align + 16 <= isize::MAX,
        ensures
            heap_has_headroom(old(self).fallback_end(), size, align) ==> allocation_outcome(
                *old(self),
                *final(self),
                size,
                align,
                r,
            ),
            !heap_has_headroom(old(self).fallback_end(), size, align) ==> r is None && *final(self) == *old(self),
    {
        let bottom = fallback_bottom(&self.fallback_allocator);
        let heap_size = fallback_size(&self.fallback_allocator);
        if bottom > usize::MAX - heap_size || bottom + heap_size > usize::MAX - size - align - 2 * PAGE_SIZE {
            return None;
        }
        self.allocate(size, align)
    }

    /// Takes back the `size` bytes aligned to `align` at `addr` and uncounts them. Where a
    /// block size holds them, the block goes to the end of that size's free list and the
    /// result is true; otherwise the result is false and the block belongs to the fallback
    /// heap, to which the kernel gives it back.
    pub fn deallocate(&mut self, addr: u64, size: usize, align: usize) -> (kept: bool)
        requires
            old(self).wf(),
            old(self).allocated() >= size,
        ensures
            final(self).wf(),
            final(self).allocated() == old(self).allocated() - size,
            match size_class(size, align) {
                Some(i) => kept && final(self).free_lists() == returned(old(self).free_lists(), i as int, addr),
                None => !kept && final(self).free_lists() == old(self).free_lists(),
            },
    {
        self.allocated_bytes = self.allocated_bytes - size;
        match list_index(size, align) {
            Some(index) => {
                let ghost lists = self.free_lists();
                self.list_heads[index].push(addr);
                assert(self.free_lists() =~= returned(lists, index as int, addr));
                true
            },
            None => false,
        }
    }
}

/// A block given back to a free list is the next one that list hands out, and handing it
/// out leaves the lists as they were before it came back.
pub proof fn lemma_freed_block_is_reused(lists: Seq<Seq<u64>>, i: int, addr: u64)
    requires
        0 <= i < lists.len(),
    ensures
        returned(lists, i, addr)[i].len() > 0,
        returned(lists, i, addr)[i].last() == addr,
        taken(returned(lists, i, addr), i) == lists,
{
    assert(returned(lists, i, addr)[i].drop_last() =~= lists[i]);
    assert(taken(returned(lists, i, addr), i) =~= lists);
}

} // verus!
