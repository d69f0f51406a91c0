use vstd::prelude::*;
use crate::memory::{PAGE_SIZE, PhysicalAddress, VirtualAddress};
use crate::memory::memory_map::{KERNEL_AND_MODULES, MemoryMapEntry};
use crate::memory::physical_memory::{Frame, FrameAllocator};
use self::entry::{EntryFlags, Entry, FRAME_NUMBER_LIMIT, PRESENT, WRITABLE, entry_value};
use self::mapper::{Mapper, TableMemory, layered, leaf_cleared, lemma_unreached_table_keeps_translations, lemma_clear_leaf_keeps_layers, leaf_slot, leaf_unused, lemma_leaf_write_keeps_other_walks, level1_table, lemma_translation_is_4k, lemma_unreached_table_keeps_layers, lemma_walk_unchanged_by_new_table, translation, walk_4k, walk_tables, zero_table};
use self::table::Table;
use self::temporary_page::TemporaryPage;

pub mod entry;
pub mod table;
pub mod mapper;
pub mod temporary_page;

verus! {

/// The number of entries in a page table.
pub const ENTRY_COUNT: usize = 512;

/// Whether `address` is a canonical 48-bit virtual address: its bits 47 to 63 agree.
pub open spec fn is_canonical(address: u64) -> bool {
    !(0x0000_8000_0000_0000 <= address < 0xffff_8000_0000_0000)
}

/// The index into the level-`level` table of the walk for page `number`.
pub open spec fn table_index(number: u64, level: nat) -> usize {
    ((number >> ((level - 1) * 9) as u64) & 0o777) as usize
}

pub proof fn lemma_table_index_bound(number: u64, level: nat)
    ensures
        table_index(number, level) < ENTRY_COUNT,
{
    let s = ((level - 1) * 9) as u64;
    assert((number >> s) & 0o777u64 < 512u64) by (bit_vector);
}

proof fn lemma_nine_bit_groups(n: u64)
    by (bit_vector)
    ensures
        (n >> 27u64) & 0o777u64 == (n / 0x800_0000u64) % 512u64,
        (n >> 18u64) & 0o777u64 == (n / 0x4_0000u64) % 512u64,
        (n >> 9u64) & 0o777u64 == (n / 0x200u64) % 512u64,
        (n >> 0u64) & 0o777u64 == n % 512u64,
        n >> 0u64 == n,
        n & 0o777u64 == n % 512u64,
        ((n >> 27u64) & 0o777u64) * 0x800_0000u64 + ((n >> 18u64) & 0o777u64) * 0x4_0000u64
            + ((n >> 9u64) & 0o777u64) * 0x200u64 + ((n >> 0u64) & 0o777u64) == n
            % 0x10_0000_0000u64,
{
}

/// The four table indices of a page are the base-512 digits of its number, the level-4
/// index highest: the level-`k` index is `number / 512^(k-1) % 512`, and together they
/// spell the number modulo 2^36 (the bits of a canonical address above the page offset
/// and below the sign extension).
pub proof fn lemma_table_indices_are_digits(number: u64)
    ensures
        table_index(number, 4) == (number / 0x800_0000) % 512,
        table_index(number, 3) == (number / 0x4_0000) % 512,
        table_index(number, 2) == (number / 0x200) % 512,
        table_index(number, 1) == number % 512,
        table_index(number, 4) * 0x800_0000 + table_index(number, 3) * 0x4_0000 + table_index(
            number,
            2,
        ) * 0x200 + table_index(number, 1) == number % 0x10_0000_0000,
{
    lemma_nine_bit_groups(number);
    assert(((4 - 1) * 9) as u64 == 27u64 && ((3 - 1) * 9) as u64 == 18u64 && ((2 - 1) * 9) as u64
        == 9u64 && ((1 - 1) * 9) as u64 == 0u64);
}

/// A virtual page, identified by its number: the page starting at `number * PAGE_SIZE`.
#[derive(Debug, Clone, Copy, PartialEq, Eq, Structural, PartialOrd, Ord)]
pub struct Page {
    pub number: u64,
}

impl Page {
    /// Returns the page containing a virtual_memory address
    pub fn containing_address(address: VirtualAddress) -> (r: Page)
        requires
            is_canonical(address),
        ensures
            r.number == address / (PAGE_SIZE as u64),
    {
        Page { number: address / (PAGE_SIZE as u64) }
    }

    pub fn range_inclusive(start: Page, end: Page) -> (r: PageIter)
        ensures
            r.next_number() == start.number,
            r.last_number() == end.number,
    {
        PageIter { start, end }
    }

    pub fn start_address(&self) -> (r: VirtualAddress)
        requires
            self.number * PAGE_SIZE <= u64::MAX,
        ensures
            r == self.number * PAGE_SIZE,
    {
        self.number * (PAGE_SIZE as u64)
    }

    pub fn p4_index(&self) -> (r: usize)
        ensures
            r == table_index(self.number, 4),
            r < ENTRY_COUNT,
            r == (self.number / 0x800_0000) % 512,
    {
        let n = self.number;
        proof {
            lemma_table_indices_are_digits(n);
        }
        ((n >> 27) & 0o777) as usize
    }

    pub fn p3_index(&self) -> (r: usize)
        ensures
            r == table_index(self.number, 3),
            r < ENTRY_COUNT,
            r == (self.number / 0x4_0000) % 512,
    {
        let n = self.number;
        proof {
            lemma_table_indices_are_digits(n);
        }
        ((n >> 18) & 0o777) as usize
    }

    pub fn p2_index(&self) -> (r: usize)
        ensures
            r == table_index(self.number, 2),
            r < ENTRY_COUNT,
            r == (self.number / 0x200) % 512,
    {
        let n = self.number;
        proof {
            lemma_table_indices_are_digits(n);
        }
        ((n >> 9) & 0o777) as usize
    }

    pub fn p1_index(&self) -> (r: usize)
        ensures
            r == table_index(self.number, 1),
            r < ENTRY_COUNT,
            r == self.number % 512,
    {
        let n = self.number;
        proof {
            lemma_table_indices_are_digits(n);
            lemma_nine_bit_groups(n);
        }
        (n & 0o777) as usize
    }
}

/// The pages from `start` to `end`, both included, in increasing order.
pub struct PageIter {
    start: Page,
    end: Page,
}

impl PageIter {
    /// The number of the next page handed out.
    pub closed spec fn next_number(&self) -> u64 {
        self.start.number
    }

    /// The number of the last page handed out.
    pub closed spec fn last_number(&self) -> u64 {
        self.end.number
    }

    /// Hands out the next page of the range, or `None` once the range is exhausted.
    pub fn next(&mut self) -> (r: Option<Page>)
        requires
            old(self).next_number() <= old(self).last_number() ==> old(self).next_number()
                < u64::MAX,
        ensures
            final(self).last_number() == old(self).last_number(),
            old(self).next_number() <= old(self).last_number() ==> {
                &&& r == Some(Page { number: old(self).next_number() })
                &&& final(self).next_number() == old(self).next_number() + 1
            },
            old(self).next_number() > old(self).last_number() ==> {
                &&& r is None
                &&& final(self).next_number() == old(self).next_number()
            },
    {
        if self.start.number <= self.end.number {
            let page = self.start;
            self.start.number = self.start.number + 1;
            Some(page)
        } else {
            None
        }
    }
}

/// The page tables in use: those reached through the level-4 table in use.
pub struct ActivePageTable {
    pub mapper: Mapper,
}

impl ActivePageTable {
    /// The page tables reached through the level-4 table in frame `p4`, which holds no
    /// mapping yet.
    pub fn new_at(p4: Frame) -> (r: ActivePageTable)
        ensures
            r.mapper.wf(),
            r.mapper.p4_frame() == p4.number,
            r.mapper.tables() == map![p4.number => zero_table()],
            layered(r.mapper.tables(), r.mapper.p4_frame()),
    {
        ActivePageTable { mapper: Mapper::new_at(p4) }
    }
}

/// A level-4 table that is not in use yet.
pub struct InactivePageTable {
    pub p4_frame: Frame,
}

impl InactivePageTable {
    /// Turns `frame` into an empty level-4 table whose last entry maps the table itself,
    /// writing it through `temporary_page` mapped in the active table.
    pub fn new(frame: Frame, active_table: &mut ActivePageTable, temporary_page: &mut TemporaryPage) -> (r: Result<InactivePageTable, &'static str>)
        requires
            old(active_table).mapper.wf(),
            frame.number < FRAME_NUMBER_LIMIT,
            !old(active_table).mapper.tables().contains_key(frame.number),
            old(temporary_page).is_usable_in(&old(active_table).mapper),
        ensures
            r is Ok && layered(old(active_table).mapper.tables(), old(active_table).mapper.p4_frame()) ==> forall|q: u64|
                #[trigger] translation(final(active_table).mapper.tables(), final(active_table).mapper.p4_frame(), q)
                    == translation(old(active_table).mapper.tables(), old(active_table).mapper.p4_frame(), q),
            final(active_table).mapper.wf(),
            final(active_table).mapper.p4_frame() == old(active_table).mapper.p4_frame(),
            r matches Ok(t) ==> {
                &&& t.p4_frame == frame
                &&& final(active_table).mapper.tables()[frame.number] == zero_table().update(
                    511,
                    entry_value(frame.number, PRESENT | WRITABLE),
                )
                &&& translation(
                    final(active_table).mapper.tables(),
                    final(active_table).mapper.p4_frame(),
                    final(temporary_page).page().number,
                ) is None
            },
            layered(old(active_table).mapper.tables(), old(active_table).mapper.p4_frame()) ==> layered(
                final(active_table).mapper.tables(),
                final(active_table).mapper.p4_frame(),
            ),
            walk_tables(
                old(active_table).mapper.tables(),
                old(active_table).mapper.p4_frame(),
                old(temporary_page).page().number,
            ) is Some && level1_table(
                old(active_table).mapper.tables(),
                old(active_table).mapper.p4_frame(),
                old(temporary_page).page().number,
            ) != frame.number ==> (r is Ok <==> exists|i: int|
                0 <= i < 3 && #[trigger] old(temporary_page).spare_frames()[i] is None),
    {
        match temporary_page.map(frame, active_table) {
            Ok(_) => {},
            Err(e) => {
                return Err(e);
            },
        }
        if active_table.mapper.holds_table(frame) {
            return Err("frame already holds a page table");
        }
        let ghost m1 = active_table.mapper.tables();
        let ghost p4 = active_table.mapper.p4_frame();
        let ghost n = temporary_page.page().number;
        proof {
            lemma_translation_is_4k(m1, p4, n);
            active_table.mapper.lemma_tables_sized();
        }
        let mut table = Table::new();
        table.zero();
        let mut entry = table.entry(511);
        let flags = EntryFlags::from_bits_truncate(PRESENT).union(
            EntryFlags::from_bits_truncate(WRITABLE),
        );
        proof {
            assert((1u64 & 0x8000_0000_0000_01ffu64) | (2u64 & 0x8000_0000_0000_01ffu64) == 1u64
                | 2u64) by (bit_vector);
        }
        entry.set(frame, flags);
        table.set_entry(511, entry);
        active_table.mapper.write_table(frame, table);
        proof {
            if layered(m1, p4) {
                lemma_unreached_table_keeps_layers(m1, p4, frame.number, table@);
            }
            lemma_walk_unchanged_by_new_table(m1, p4, n, frame.number, table@);
            assert(table@ == zero_table().update(511, entry_value(frame.number, PRESENT | WRITABLE)));
        }
        let ghost m2 = active_table.mapper.tables();
        match temporary_page.unmap(active_table) {
            Ok(()) => {},
            Err(e) => {
                return Err(e);
            },
        }
        proof {
            if layered(old(active_table).mapper.tables(), p4) {
                let m3 = active_table.mapper.tables();
                let c1 = leaf_cleared(m1, p4, n);
                assert(level1_table(m2, p4, n) == level1_table(m1, p4, n));
                assert(m3 =~= c1.insert(frame.number, table@));
                lemma_clear_leaf_keeps_layers(m1, p4, n);
                assert forall|q: u64| #[trigger] translation(m3, p4, q) == translation(
                    old(active_table).mapper.tables(),
                    p4,
                    q,
                ) by {
                    lemma_unreached_table_keeps_translations(c1, p4, frame.number, table@, q);
                }
            }
        }
        Ok(InactivePageTable { p4_frame: frame })
    }
}

/// Where the kernel's image is mapped in the higher half.
pub const KERNEL_START_VMA_ADDRESS: VirtualAddress = 0xFFFF_FFFF_8000_0000;

/// The last physical address whose frame the direct mapping of physical memory covers.
pub const DIRECT_MAPPING_END: PhysicalAddress = 0xFFE0_0000;

/// Every address from `lo` to `hi` is canonical: the range lies below the non-canonical hole
/// or above it.
pub open spec fn canonical_range(lo: int, hi: int) -> bool {
    hi < 0x0000_8000_0000_0000 || 0xffff_8000_0000_0000 <= lo
}

/// The kernel's sections in `memory_map` can be mapped at their address plus
/// `KERNEL_START_VMA_ADDRESS`: the last byte of each, so shifted, is an address.
pub open spec fn kernel_sections_fit(memory_map: Seq<MemoryMapEntry>) -> bool {
    forall|j: int|
        0 <= j < memory_map.len() && #[trigger] memory_map[j].entry_type == KERNEL_AND_MODULES
            ==> memory_map[j].base + memory_map[j].length + KERNEL_START_VMA_ADDRESS <= u64::MAX
}

/// The number of the page that holds the address of frame `f` plus `offset`.
pub open spec fn offset_page(f: u64, offset: u64) -> u64 {
    ((f * PAGE_SIZE + offset) / PAGE_SIZE as int) as u64
}

/// Every frame from `first` to `last`, at its address plus `offset`, has a page whose walk
/// already reaches a level-1 table with an unused entry for it, and no two of those pages go
/// through the same entry.
pub open spec fn range_ready(mem: TableMemory, p4: u64, first: u64, last: u64, offset: u64) -> bool {
    &&& forall|f: u64|
        first <= f <= last ==> walk_tables(mem, p4, #[trigger] offset_page(f, offset)) is Some && leaf_unused(
            mem,
            p4,
            offset_page(f, offset),
        )
    &&& forall|f: u64, g: u64|
        first <= f <= last && first <= g <= last && f != g ==> #[trigger] leaf_slot(mem, p4, offset_page(f, offset))
            != #[trigger] leaf_slot(mem, p4, offset_page(g, offset))
}

/// Page `q` already reaches a level-1 table with an unused entry for it, and it goes through
/// another entry than the page of every frame from `first` up to `upto`, excluded, at its
/// address plus `offset`.
pub open spec fn apart_from_range(mem: TableMemory, p4: u64, q: u64, first: u64, upto: int, offset: u64) -> bool {
    &&& walk_tables(mem, p4, q) is Some
    &&& leaf_unused(mem, p4, q)
    &&& forall|f: u64| first <= f < upto ==> leaf_slot(mem, p4, q) != #[trigger] leaf_slot(mem, p4, offset_page(f, offset))
}

/// Maps each frame from `first` to `last`, writable, at its address plus `offset`. It fails
/// when a page is already mapped or blocked by a huge page, or when the allocator runs out of
/// frames for page tables; the pages mapped until then stay mapped. When it succeeds on
/// layered page tables, each of those frames is mapped there. On layered tables where the
/// range is ready, it succeeds without new tables, and every page apart from the range keeps
/// its walk and its unused entry.
fn map_frames_at_offset<A: FrameAllocator>(active_table: &mut ActivePageTable, first: Frame, last: Frame, offset: u64, allocator: &mut A) -> (r: Result<(), &'static str>)
    requires
        old(active_table).mapper.wf(),
        old(allocator).wf_allocator(),
        last.number < FRAME_NUMBER_LIMIT,
        last.number * PAGE_SIZE + offset <= u64::MAX,
        canonical_range(first.number * PAGE_SIZE + offset, last.number * PAGE_SIZE + offset),
    ensures
        final(active_table).mapper.wf(),
        final(allocator).wf_allocator(),
        final(active_table).mapper.p4_frame() == old(active_table).mapper.p4_frame(),
        forall|q: u64|
            #[trigger] translation(old(active_table).mapper.tables(), old(active_table).mapper.p4_frame(), q) is Some
                ==> translation(final(active_table).mapper.tables(), final(active_table).mapper.p4_frame(), q)
                == translation(old(active_table).mapper.tables(), old(active_table).mapper.p4_frame(), q),
        layered(old(active_table).mapper.tables(), old(active_table).mapper.p4_frame()) ==> layered(
            final(active_table).mapper.tables(),
            final(active_table).mapper.p4_frame(),
        ),
        r is Ok && layered(old(active_table).mapper.tables(), old(active_table).mapper.p4_frame()) ==> forall|f: u64|
            first.number <= f <= last.number ==> #[trigger] translation(
                final(active_table).mapper.tables(),
                final(active_table).mapper.p4_frame(),
                offset_page(f, offset),
            ) == Some(f),
        layered(old(active_table).mapper.tables(), old(active_table).mapper.p4_frame()) && range_ready(
            old(active_table).mapper.tables(),
            old(active_table).mapper.p4_frame(),
            first.number,
            last.number,
            offset,
        ) ==> {
            &&& r is Ok
            &&& forall|q: u64|
                #[trigger] apart_from_range(
                    old(active_table).mapper.tables(),
                    old(active_table).mapper.p4_frame(),
                    q,
                    first.number,
                    last.number + 1,
                    offset,
                ) ==> walk_tables(final(active_table).mapper.tables(), final(active_table).mapper.p4_frame(), q)
                    == walk_tables(old(active_table).mapper.tables(), old(active_table).mapper.p4_frame(), q)
                    && leaf_unused(final(active_table).mapper.tables(), final(active_table).mapper.p4_frame(), q)
        },
{
    let mut frames = Frame::range_inclusive(first, last);
    let ghost p4 = active_table.mapper.p4_frame();
    let ghost mem0 = active_table.mapper.tables();
    let ghost lay = layered(mem0, p4);
    let ghost ready = lay && range_ready(mem0, p4, first.number, last.number, offset);
    let flags = EntryFlags::from_bits_truncate(WRITABLE);
    loop
        invariant
            active_table.mapper.wf(),
            allocator.wf_allocator(),
            active_table.mapper.p4_frame() == p4,
            p4 == old(active_table).mapper.p4_frame(),
            mem0 == old(active_table).mapper.tables(),
            frames.last_number() == last.number,
            first.number <= frames.next_number(),
            first.number <= last.number ==> frames.next_number() <= last.number + 1,
            first.number > last.number ==> frames.next_number() == first.number,
            last.number < FRAME_NUMBER_LIMIT,
            last.number * PAGE_SIZE + offset <= u64::MAX,
            canonical_range(first.number * PAGE_SIZE + offset, last.number * PAGE_SIZE + offset),
            forall|q: u64|
                #[trigger] translation(mem0, p4, q) is Some ==> translation(active_table.mapper.tables(), p4, q)
                    == translation(mem0, p4, q),
            lay == layered(mem0, p4),
            lay ==> layered(active_table.mapper.tables(), p4),
            lay ==> forall|f: u64|
                first.number <= f < frames.next_number() ==> #[trigger] translation(
                    active_table.mapper.tables(),
                    p4,
                    offset_page(f, offset),
                ) == Some(f),
            ready == (lay && range_ready(mem0, p4, first.number, last.number, offset)),
            ready ==> forall|q: u64|
                #[trigger] apart_from_range(mem0, p4, q, first.number, frames.next_number() as int, offset)
                    ==> walk_tables(active_table.mapper.tables(), p4, q) == walk_tables(mem0, p4, q) && leaf_unused(
                    active_table.mapper.tables(),
                    p4,
                    q,
                ),
        ensures
            active_table.mapper.wf(),
            allocator.wf_allocator(),
            active_table.mapper.p4_frame() == p4,
            forall|q: u64|
                #[trigger] translation(mem0, p4, q) is Some ==> translation(active_table.mapper.tables(), p4, q)
                    == translation(mem0, p4, q),
            lay ==> layered(active_table.mapper.tables(), p4),
            lay ==> forall|f: u64|
                first.number <= f <= last.number ==> #[trigger] translation(
                    active_table.mapper.tables(),
                    p4,
                    offset_page(f, offset),
                ) == Some(f),
            ready ==> forall|q: u64|
                #[trigger] apart_from_range(mem0, p4, q, first.number, last.number + 1, offset)
                    ==> walk_tables(active_table.mapper.tables(), p4, q) == walk_tables(mem0, p4, q) && leaf_unused(
                    active_table.mapper.tables(),
                    p4,
                    q,
                ),
        decreases last.number + 1 - frames.next_number(),
    {
        let ghost next_before = frames.next_number();
        let frame = match frames.next() {
            Some(frame) => frame,
            None => {
                proof {
                    if ready {
                        assert forall|q: u64|
                            #[trigger] apart_from_range(mem0, p4, q, first.number, last.number + 1, offset) implies walk_tables(
                            active_table.mapper.tables(),
                            p4,
                            q,
                        ) == walk_tables(mem0, p4, q) && leaf_unused(active_table.mapper.tables(), p4, q) by {
                            assert(apart_from_range(mem0, p4, q, first.number, next_before as int, offset));
                        }
                    }
                }
                break;
            },
        };
        assert(first.number * PAGE_SIZE <= frame.number * PAGE_SIZE <= last.number * PAGE_SIZE) by (nonlinear_arith)
            requires
                first.number <= frame.number <= last.number,
        ;
        let address = frame.start_address() + offset;
        let page = Page::containing_address(address);
        let ghost before = active_table.mapper.tables();
        proof {
            assert(page.number == offset_page(frame.number, offset));
            active_table.mapper.lemma_tables_sized();
            if ready {
                assert(apart_from_range(mem0, p4, page.number, first.number, frame.number as int, offset)) by {
                    assert(walk_tables(mem0, p4, offset_page(frame.number, offset)) is Some);
                    assert forall|g: u64| first.number <= g < frame.number implies leaf_slot(mem0, p4, page.number)
                        != #[trigger] leaf_slot(mem0, p4, offset_page(g, offset)) by {
                        assert(leaf_slot(mem0, p4, offset_page(frame.number, offset)) != leaf_slot(
                            mem0,
                            p4,
                            offset_page(g, offset),
                        ));
                    }
                }
                assert(walk_tables(before, p4, page.number) is Some);
                assert(leaf_unused(before, p4, page.number));
            }
        }
        if !active_table.mapper.can_map(page) {
            return Err("mm: page already mapped");
        }
        if active_table.mapper.map_to(page, frame, flags, allocator).is_err() {
            return Err("mm: out of memory");
        }
        proof {
            if ready {
                assert forall|q: u64|
                    #[trigger] apart_from_range(mem0, p4, q, first.number, frames.next_number() as int, offset) implies walk_tables(
                    active_table.mapper.tables(),
                    p4,
                    q,
                ) == walk_tables(mem0, p4, q) && leaf_unused(active_table.mapper.tables(), p4, q) by {
                    assert(apart_from_range(mem0, p4, q, first.number, frame.number as int, offset));
                    assert(walk_tables(before, p4, q) == walk_tables(mem0, p4, q));
                    assert(leaf_slot(mem0, p4, q) != leaf_slot(mem0, p4, offset_page(frame.number, offset)));
                    assert(leaf_slot(before, p4, q) == leaf_slot(mem0, p4, q));
                    assert(leaf_slot(before, p4, page.number) == leaf_slot(mem0, p4, page.number));
                    lemma_leaf_write_keeps_other_walks(
                        before,
                        p4,
                        page.number,
                        q,
                        entry_value(frame.number, flags@ | PRESENT),
                    );
                }
            }
            if lay {
                assert(page.number == offset_page(frame.number, offset));
                assert forall|f: u64| first.number <= f < frames.next_number() implies #[trigger] translation(
                    active_table.mapper.tables(),
                    p4,
                    offset_page(f, offset),
                ) == Some(f) by {
                    if f < frame.number {
                        assert(translation(before, p4, offset_page(f, offset)) == Some(f));
                    }
                }
            }
        }
    }
    Ok(())
}

/// Frame `f` belongs to kernel section `j` of `memory_map`: it lies between the frame holding
/// the section's start and the frame holding the address just past it.
pub open spec fn kernel_frame(memory_map: Seq<MemoryMapEntry>, j: int, f: u64) -> bool {
    &&& 0 <= j < memory_map.len()
    &&& memory_map[j].entry_type == KERNEL_AND_MODULES
    &&& memory_map[j].base / (PAGE_SIZE as u64) <= f <= (memory_map[j].base + memory_map[j].length) / (PAGE_SIZE as int)
}

/// Every page that `setup_page_tables` maps already reaches a level-1 table with an unused
/// entry for it, and no entry is used twice: not by two frames of the direct mapping, not by
/// a kernel frame and a frame of the direct mapping, and not by two kernel frames or the same
/// frame in two kernel sections.
pub open spec fn setup_ready(mem: TableMemory, p4: u64, memory_map: Seq<MemoryMapEntry>, hhdm_offset: u64) -> bool {
    &&& range_ready(mem, p4, 0, DIRECT_MAPPING_END / (PAGE_SIZE as u64), hhdm_offset)
    &&& forall|j: int, f: u64|
        #[trigger] kernel_frame(memory_map, j, f) ==> apart_from_range(
            mem,
            p4,
            offset_page(f, KERNEL_START_VMA_ADDRESS),
            0,
            DIRECT_MAPPING_END / (PAGE_SIZE as u64) + 1,
            hhdm_offset,
        )
    &&& forall|j: int, f: u64, k: int, g: u64|
        #[trigger] kernel_frame(memory_map, j, f) && #[trigger] kernel_frame(memory_map, k, g) && (j != k || f != g)
            ==> leaf_slot(mem, p4, offset_page(f, KERNEL_START_VMA_ADDRESS)) != leaf_slot(
            mem,
            p4,
            offset_page(g, KERNEL_START_VMA_ADDRESS),
        )
}

/// Maps the kernel structures in the higher half of the page tables of `active_table`:
/// every frame up to the one holding `DIRECT_MAPPING_END` at its address plus `hhdm_offset`,
/// then every frame of each kernel section of `memory_map` at its address plus
/// `KERNEL_START_VMA_ADDRESS`, all writable. It fails when a page is already mapped or
/// blocked by a huge page, or when the allocator runs out of frames for page tables; the
/// pages mapped until then stay mapped, and so does every mapping there was before. When it
/// succeeds on layered page tables, all those frames are mapped there. On layered tables where
/// all of that is ready, it succeeds without new tables.
pub fn setup_page_tables<A: FrameAllocator>(active_table: &mut ActivePageTable, memory_map: &Vec<MemoryMapEntry>, hhdm_offset: u64, allocator: &mut A) -> (r: Result<(), &'static str>)
    requires
        old(active_table).mapper.wf(),
        old(allocator).wf_allocator(),
        hhdm_offset + DIRECT_MAPPING_END <= u64::MAX,
        canonical_range(hhdm_offset as int, hhdm_offset + DIRECT_MAPPING_END),
        kernel_sections_fit(memory_map@),
    ensures
        final(active_table).mapper.wf(),
        final(allocator).wf_allocator(),
        final(active_table).mapper.p4_frame() == old(active_table).mapper.p4_frame(),
        forall|q: u64|
            #[trigger] translation(old(active_table).mapper.tables(), old(active_table).mapper.p4_frame(), q) is Some
                ==> translation(final(active_table).mapper.tables(), final(active_table).mapper.p4_frame(), q)
                == translation(old(active_table).mapper.tables(), old(active_table).mapper.p4_frame(), q),
        layered(old(active_table).mapper.tables(), old(active_table).mapper.p4_frame()) ==> layered(
            final(active_table).mapper.tables(),
            final(active_table).mapper.p4_frame(),
        ),
        r is Ok && layered(old(active_table).mapper.tables(), old(active_table).mapper.p4_frame()) ==> {
            &&& forall|f: u64|
                f <= DIRECT_MAPPING_END / (PAGE_SIZE as u64) ==> #[trigger] translation(
                    final(active_table).mapper.tables(),
                    final(active_table).mapper.p4_frame(),
                    offset_page(f, hhdm_offset),
                ) == Some(f)
            &&& forall|j: int, f: u64|
                #![trigger memory_map@[j], offset_page(f, KERNEL_START_VMA_ADDRESS)]
                0 <= j < memory_map@.len() && memory_map@[j].entry_type == KERNEL_AND_MODULES && memory_map@[j].base
                    / (PAGE_SIZE as u64) <= f <= (memory_map@[j].base + memory_map@[j].length) / (PAGE_SIZE as int)
                    ==> translation(
                    final(active_table).mapper.tables(),
                    final(active_table).mapper.p4_frame(),
                    offset_page(f, KERNEL_START_VMA_ADDRESS),
                ) == Some(f)
        },
        layered(old(active_table).mapper.tables(), old(active_table).mapper.p4_frame()) && setup_ready(
            old(active_table).mapper.tables(),
            old(active_table).mapper.p4_frame(),
            memory_map@,
            hhdm_offset,
        ) ==> r is Ok,
{
    let ghost p4 = active_table.mapper.p4_frame();
    let ghost mem0 = active_table.mapper.tables();
    let ghost lay = layered(mem0, p4);
    let ghost ready = lay && setup_ready(mem0, p4, memory_map@, hhdm_offset);
    // Higher half direct mapping
    let start_frame = Frame::containing_address(0);
    let end_frame = Frame::containing_address(DIRECT_MAPPING_END);
    assert(0xFFE0_0000u64 / 4096u64 == 0xFFE00u64) by (bit_vector);
    assert(start_frame.number == 0 && end_frame.number * PAGE_SIZE == DIRECT_MAPPING_END);
    match map_frames_at_offset(active_table, start_frame, end_frame, hhdm_offset, allocator) {
        Ok(()) => {},
        Err(e) => {
            return Err(e);
        },
    }
    proof {
        if ready {
            assert forall|j: int, f: u64| #[trigger] kernel_frame(memory_map@, j, f) implies walk_tables(
                active_table.mapper.tables(),
                p4,
                offset_page(f, KERNEL_START_VMA_ADDRESS),
            ) == walk_tables(mem0, p4, offset_page(f, KERNEL_START_VMA_ADDRESS)) && leaf_unused(
                active_table.mapper.tables(),
                p4,
                offset_page(f, KERNEL_START_VMA_ADDRESS),
            ) by {
                assert(apart_from_range(
                    mem0,
                    p4,
                    offset_page(f, KERNEL_START_VMA_ADDRESS),
                    start_frame.number,
                    end_frame.number + 1,
                    hhdm_offset,
                ));
            }
        }
    }
    // Kernel mapping
    let mut i: usize = 0;
    while i < memory_map.len()
        invariant
            active_table.mapper.wf(),
            allocator.wf_allocator(),
            active_table.mapper.p4_frame() == p4,
            p4 == old(active_table).mapper.p4_frame(),
            mem0 == old(active_table).mapper.tables(),
            kernel_sections_fit(memory_map@),
            forall|q: u64|
                #[trigger] translation(mem0, p4, q) is Some ==> translation(active_table.mapper.tables(), p4, q)
                    == translation(mem0, p4, q),
            i <= memory_map@.len(),
            lay == layered(mem0, p4),
            lay ==> layered(active_table.mapper.tables(), p4),
            lay ==> forall|f: u64|
                f <= DIRECT_MAPPING_END / (PAGE_SIZE as u64) ==> #[trigger] translation(
                    active_table.mapper.tables(),
                    p4,
                    offset_page(f, hhdm_offset),
                ) == Some(f),
            lay ==> forall|j: int, f: u64|
                #![trigger memory_map@[j], offset_page(f, KERNEL_START_VMA_ADDRESS)]
                0 <= j < i && memory_map@[j].entry_type == KERNEL_AND_MODULES && memory_map@[j].base / (PAGE_SIZE as u64)
                    <= f <= (memory_map@[j].base + memory_map@[j].length) / (PAGE_SIZE as int) ==> translation(
                    active_table.mapper.tables(),
                    p4,
                    offset_page(f, KERNEL_START_VMA_ADDRESS),
                ) == Some(f),
            ready == (lay && setup_ready(mem0, p4, memory_map@, hhdm_offset)),
            ready ==> forall|j: int, f: u64|
                #[trigger] kernel_frame(memory_map@, j, f) && j >= i ==> walk_tables(
                    active_table.mapper.tables(),
                    p4,
                    offset_page(f, KERNEL_START_VMA_ADDRESS),
                ) == walk_tables(mem0, p4, offset_page(f, KERNEL_START_VMA_ADDRESS)) && leaf_unused(
                    active_table.mapper.tables(),
                    p4,
                    offset_page(f, KERNEL_START_VMA_ADDRESS),
                ),
        decreases memory_map.len() - i,
    {
        let kernel_section = memory_map[i];
        if kernel_section.entry_type == KERNEL_AND_MODULES {
            assert(memory_map@[i as int].entry_type == KERNEL_AND_MODULES);
            let start_frame = Frame::containing_address(kernel_section.base);
            let end_frame = Frame::containing_address(kernel_section.base + kernel_section.length);
            let ghost before = active_table.mapper.tables();
            proof {
                if ready {
                    assert forall|f: u64| start_frame.number <= f <= end_frame.number implies walk_tables(
                        before,
                        p4,
                        #[trigger] offset_page(f, KERNEL_START_VMA_ADDRESS),
                    ) is Some && leaf_unused(before, p4, offset_page(f, KERNEL_START_VMA_ADDRESS)) by {
                        assert(kernel_frame(memory_map@, i as int, f));
                    }
                    assert forall|f: u64, g: u64|
                        start_frame.number <= f <= end_frame.number && start_frame.number <= g <= end_frame.number
                            && f != g implies #[trigger] leaf_slot(before, p4, offset_page(f, KERNEL_START_VMA_ADDRESS))
                        != #[trigger] leaf_slot(before, p4, offset_page(g, KERNEL_START_VMA_ADDRESS)) by {
                        assert(kernel_frame(memory_map@, i as int, f));
                        assert(kernel_frame(memory_map@, i as int, g));
                    }
                    assert(range_ready(before, p4, start_frame.number, end_frame.number, KERNEL_START_VMA_ADDRESS));
                }
            }
            match map_frames_at_offset(active_table, start_frame, end_frame, KERNEL_START_VMA_ADDRESS, allocator) {
                Ok(()) => {},
                Err(e) => {
                    return Err(e);
                },
            }
            proof {
                if ready {
                    let after = active_table.mapper.tables();
                    assert forall|j: int, f: u64| #[trigger] kernel_frame(memory_map@, j, f) && j >= i + 1 implies walk_tables(
                        after,
                        p4,
                        offset_page(f, KERNEL_START_VMA_ADDRESS),
                    ) == walk_tables(mem0, p4, offset_page(f, KERNEL_START_VMA_ADDRESS)) && leaf_unused(
                        after,
                        p4,
                        offset_page(f, KERNEL_START_VMA_ADDRESS),
                    ) by {
                        assert forall|g: u64| start_frame.number <= g < end_frame.number + 1 implies leaf_slot(
                            before,
                            p4,
                            offset_page(f, KERNEL_START_VMA_ADDRESS),
                        ) != #[trigger] leaf_slot(before, p4, offset_page(g, KERNEL_START_VMA_ADDRESS)) by {
                            assert(kernel_frame(memory_map@, i as int, g));
                        }
                        assert(apart_from_range(
                            before,
                            p4,
                            offset_page(f, KERNEL_START_VMA_ADDRESS),
                            start_frame.number,
                            end_frame.number + 1,
                            KERNEL_START_VMA_ADDRESS,
                        ));
                    }
                }
                if lay {
                    let after = active_table.mapper.tables();
                    assert forall|f: u64| f <= DIRECT_MAPPING_END / (PAGE_SIZE as u64) implies #[trigger] translation(
                        after,
                        p4,
                        offset_page(f, hhdm_offset),
                    ) == Some(f) by {
                        assert(translation(before, p4, offset_page(f, hhdm_offset)) == Some(f));
                    }
                    assert forall|j: int, f: u64|
                        #![trigger memory_map@[j], offset_page(f, KERNEL_START_VMA_ADDRESS)]
                        0 <= j < i + 1 && memory_map@[j].entry_type == KERNEL_AND_MODULES && memory_map@[j].base
                            / (PAGE_SIZE as u64) <= f <= (memory_map@[j].base + memory_map@[j].length) / (
                        PAGE_SIZE as int) implies translation(after, p4, offset_page(f, KERNEL_START_VMA_ADDRESS))
                        == Some(f) by {
                        if j < i {
                            assert(translation(before, p4, offset_page(f, KERNEL_START_VMA_ADDRESS)) == Some(f));
                        } else {
                            assert(memory_map@[j] == kernel_section);
                        }
                    }
                }
            }
        }
        i = i + 1;
    }
    Ok(())
}

} // verus!
