use vstd::prelude::*;
use std::collections::BTreeMap;
use crate::memory::{PAGE_SIZE, PhysicalAddress, VirtualAddress};
use crate::memory::physical_memory::{Frame, FrameAllocator};
use crate::memory::virtual_memory::key_order::{keys_ordered, lemma_keys_ordered};
use super::{ENTRY_COUNT, Page, is_canonical, lemma_table_index_bound, table_index};
use super::entry::{ALL_FLAGS, ADDRESS_MASK, Entry, EntryFlags, FRAME_NUMBER_LIMIT, HUGE_PAGE, PRESENT, WRITABLE, entry_frame, entry_is_huge, entry_value};
use super::table::Table;

verus! {

broadcast use vstd::std_specs::btree::group_btree_axioms;

/// Page-table memory: the frames that hold page tables, each with its entries.
pub type TableMemory = Map<u64, Seq<u64>>;

/// The entries of a table whose entries are all unused.
pub open spec fn zero_table() -> Seq<u64> {
    Seq::new(ENTRY_COUNT as nat, |i: int| 0u64)
}

/// The table stored in frame `f`; a frame that holds no page table reads as unused entries.
pub open spec fn table_at(mem: TableMemory, f: u64) -> Seq<u64> {
    if mem.contains_key(f) {
        mem[f]
    } else {
        zero_table()
    }
}

/// Entry `i` of the table in frame `f`.
pub open spec fn entry_at(mem: TableMemory, f: u64, i: usize) -> u64 {
    table_at(mem, f)[i as int]
}

/// The frame of the next-level table that entry `i` of table `f` refers to: the entry must be
/// present and must not map a huge page.
pub open spec fn next_table_of(mem: TableMemory, f: u64, i: usize) -> Option<u64> {
    let e = entry_at(mem, f, i);
    if e & PRESENT != 0 && !entry_is_huge(e) {
        entry_frame(e)
    } else {
        None
    }
}

/// The level-3, level-2 and level-1 tables of the walk for page `n`, when all three exist.
pub open spec fn walk_tables(mem: TableMemory, p4: u64, n: u64) -> Option<(u64, u64, u64)> {
    match next_table_of(mem, p4, table_index(n, 4)) {
        None => None,
        Some(p3) => match next_table_of(mem, p3, table_index(n, 3)) {
            None => None,
            Some(p2) => match next_table_of(mem, p2, table_index(n, 2)) {
                None => None,
                Some(p1) => Some((p3, p2, p1)),
            },
        },
    }
}

/// The level-1 table of the walk for page `n` (meaningful when the walk reaches one).
pub open spec fn level1_table(mem: TableMemory, p4: u64, n: u64) -> u64 {
    match walk_tables(mem, p4, n) {
        Some((p3, p2, p1)) => p1,
        None => 0,
    }
}

/// The frame that page `n` maps to through a level-1 entry.
pub open spec fn walk_4k(mem: TableMemory, p4: u64, n: u64) -> Option<u64> {
    match walk_tables(mem, p4, n) {
        Some((p3, p2, p1)) => entry_frame(entry_at(mem, p1, table_index(n, 1))),
        None => None,
    }
}

/// The frame that page `n` maps to through a 1 GiB page (a huge level-3 entry) or a 2 MiB
/// page (a huge level-2 entry).
pub open spec fn walk_huge(mem: TableMemory, p4: u64, n: u64) -> Option<u64> {
    match next_table_of(mem, p4, table_index(n, 4)) {
        None => None,
        Some(p3) => {
            let e3 = entry_at(mem, p3, table_index(n, 3));
            if entry_frame(e3) is Some && entry_is_huge(e3) {
                Some((entry_frame(e3)->0 + table_index(n, 2) * ENTRY_COUNT + table_index(n, 1)) as u64)
            } else {
                match next_table_of(mem, p3, table_index(n, 3)) {
                    Some(p2) => {
                        let e2 = entry_at(mem, p2, table_index(n, 2));
                        if entry_frame(e2) is Some && entry_is_huge(e2) {
                            Some((entry_frame(e2)->0 + table_index(n, 1)) as u64)
                        } else {
                            None
                        }
                    },
                    None => None,
                }
            }
        },
    }
}

/// The frame that page `n` is mapped to, if any.
pub open spec fn translation(mem: TableMemory, p4: u64, n: u64) -> Option<u64> {
    if walk_4k(mem, p4, n) is Some {
        walk_4k(mem, p4, n)
    } else {
        walk_huge(mem, p4, n)
    }
}

/// Every huge page met while translating page `n` starts at a frame aligned to its size.
pub open spec fn huge_pages_aligned(mem: TableMemory, p4: u64, n: u64) -> bool {
    walk_4k(mem, p4, n) is Some || match next_table_of(mem, p4, table_index(n, 4)) {
        None => true,
        Some(p3) => {
            let e3 = entry_at(mem, p3, table_index(n, 3));
            if entry_frame(e3) is Some && entry_is_huge(e3) {
                entry_frame(e3)->0 % (ENTRY_COUNT * ENTRY_COUNT) as u64 == 0
            } else {
                match next_table_of(mem, p3, table_index(n, 3)) {
                    Some(p2) => {
                        let e2 = entry_at(mem, p2, table_index(n, 2));
                        entry_frame(e2) is Some && entry_is_huge(e2) ==> entry_frame(e2)->0
                            % ENTRY_COUNT as u64 == 0
                    },
                    None => true,
                }
            }
        },
    }
}

/// No level of the walk for page `n` that still lacks a table is blocked by a huge-page entry.
pub open spec fn no_huge_on_path(mem: TableMemory, p4: u64, n: u64) -> bool {
    &&& next_table_of(mem, p4, table_index(n, 4)) is None ==> !entry_is_huge(
        entry_at(mem, p4, table_index(n, 4)),
    )
    &&& match next_table_of(mem, p4, table_index(n, 4)) {
        None => true,
        Some(p3) => {
            &&& next_table_of(mem, p3, table_index(n, 3)) is None ==> !entry_is_huge(
                entry_at(mem, p3, table_index(n, 3)),
            )
            &&& match next_table_of(mem, p3, table_index(n, 3)) {
                None => true,
                Some(p2) => next_table_of(mem, p2, table_index(n, 2)) is None ==> !entry_is_huge(
                    entry_at(mem, p2, table_index(n, 2)),
                ),
            }
        },
    }
}

/// If the walk for page `n` already reaches a level-1 table, its entry for `n` is unused.
pub open spec fn leaf_unused(mem: TableMemory, p4: u64, n: u64) -> bool {
    match walk_tables(mem, p4, n) {
        Some((p3, p2, p1)) => entry_at(mem, p1, table_index(n, 1)) == 0,
        None => true,
    }
}

/// The tables that the walk for page `n` already reaches are pairwise distinct.
pub open spec fn existing_path_distinct(mem: TableMemory, p4: u64, n: u64) -> bool {
    match next_table_of(mem, p4, table_index(n, 4)) {
        None => true,
        Some(p3) => p3 != p4 && match next_table_of(mem, p3, table_index(n, 3)) {
            None => true,
            Some(p2) => p2 != p3 && p2 != p4 && match next_table_of(mem, p2, table_index(n, 2)) {
                None => true,
                Some(p1) => p1 != p2 && p1 != p3 && p1 != p4,
            },
        },
    }
}

/// An unused entry has no flag set: it is neither present nor a huge page.
proof fn lemma_unused_entry_has_no_flags()
    ensures
        0u64 & 1u64 == 0u64,
        0u64 & 128u64 == 0u64,
{
    assert(0u64 & 128u64 == 0u64 && 0u64 & 1u64 == 0u64) by (bit_vector);
}

/// The entry of a table pointing at frame `t`, present and writable, is present, not huge, and
/// points at `t`.
pub proof fn lemma_table_entry_value(t: u64)
    requires
        t < FRAME_NUMBER_LIMIT,
    ensures
        entry_value(t, PRESENT | WRITABLE) & PRESENT != 0,
        !entry_is_huge(entry_value(t, PRESENT | WRITABLE)),
        entry_frame(entry_value(t, PRESENT | WRITABLE)) == Some(t),
{
    let v = ((t * 4096u64) as u64) | 3u64;
    assert(v & 1u64 != 0u64 && v & 128u64 == 0u64 && (v & 0x000fffff_fffff000u64) / 4096u64 == t)
        by (bit_vector)
        requires
            t < 0x100_0000_0000u64,
            v == ((t * 4096u64) as u64) | 3u64,
    ;
    assert(1u64 | 2u64 == 3u64) by (bit_vector);
}

proof fn lemma_leaf_entry_value(t: u64, flags: u64)
    requires
        t < FRAME_NUMBER_LIMIT,
        flags & PRESENT != 0,
        flags & ALL_FLAGS == flags,
    ensures
        entry_frame(entry_value(t, flags)) == Some(t),
{
    let v = ((t * 4096u64) as u64) | flags;
    assert(v & 1u64 != 0u64 && (v & 0x000fffff_fffff000u64) / 4096u64 == t) by (bit_vector)
        requires
            t < 0x100_0000_0000u64,
            flags & 1u64 != 0u64,
            flags & 0x8000_0000_0000_01ffu64 == flags,
            v == ((t * 4096u64) as u64) | flags,
    ;
}

/// A frame that holds no page table has no present entry.
pub proof fn lemma_next_table_in_memory(mem: TableMemory, f: u64, i: usize)
    requires
        i < ENTRY_COUNT,
        next_table_of(mem, f, i) is Some,
    ensures
        mem.contains_key(f),
{
    lemma_unused_entry_has_no_flags();
}

/// A page whose walk reaches a level-1 table is translated through that table.
pub proof fn lemma_translation_is_4k(mem: TableMemory, p4: u64, n: u64)
    requires
        walk_tables(mem, p4, n) is Some,
    ensures
        translation(mem, p4, n) == walk_4k(mem, p4, n),
{
}

/// The tables after clearing the level-1 entry of page `n`.
pub open spec fn leaf_cleared(mem: TableMemory, p4: u64, n: u64) -> TableMemory {
    mem.insert(
        level1_table(mem, p4, n),
        table_at(mem, level1_table(mem, p4, n)).update(table_index(n, 1) as int, 0),
    )
}

/// In layered tables, storing a table in a frame that holds none leaves every translation as
/// it was: no walk reaches that frame.
pub proof fn lemma_unreached_table_keeps_translations(mem: TableMemory, p4: u64, f: u64, t: Seq<u64>, q: u64)
    requires
        layered(mem, p4),
        !mem.contains_key(f),
    ensures
        translation(mem.insert(f, t), p4, q) == translation(mem, p4, q),
{
    let levels = choose|l: Map<u64, nat>| layered_by(mem, p4, l);
    let mem2 = mem.insert(f, t);
    lemma_table_index_bound(q, 1);
    lemma_table_index_bound(q, 2);
    lemma_table_index_bound(q, 3);
    lemma_table_index_bound(q, 4);
    assert(entry_at(mem2, p4, table_index(q, 4)) == entry_at(mem, p4, table_index(q, 4)));
    if let Some(p3) = next_table_of(mem, p4, table_index(q, 4)) {
        assert(levels[p4] == 4);
        assert(mem.contains_key(p3));
        assert(entry_at(mem2, p3, table_index(q, 3)) == entry_at(mem, p3, table_index(q, 3)));
        if let Some(p2) = next_table_of(mem, p3, table_index(q, 3)) {
            assert(levels[p3] == 3);
            assert(mem.contains_key(p2));
            assert(entry_at(mem2, p2, table_index(q, 2)) == entry_at(mem, p2, table_index(q, 2)));
            if let Some(p1) = next_table_of(mem, p2, table_index(q, 2)) {
                assert(levels[p2] == 2);
                assert(mem.contains_key(p1));
                assert(entry_at(mem2, p1, table_index(q, 1)) == entry_at(mem, p1, table_index(q, 1)));
            }
        }
    }
    assert(walk_tables(mem2, p4, q) == walk_tables(mem, p4, q));
    assert(walk_huge(mem2, p4, q) == walk_huge(mem, p4, q));
}

/// Storing a table in a frame that held none leaves every complete walk as it was.
pub proof fn lemma_walk_unchanged_by_new_table(mem: TableMemory, p4: u64, n: u64, f: u64, t: Seq<u64>)
    requires
        walk_4k(mem, p4, n) is Some,
        !mem.contains_key(f),
    ensures
        walk_tables(mem.insert(f, t), p4, n) == walk_tables(mem, p4, n),
        walk_4k(mem.insert(f, t), p4, n) == walk_4k(mem, p4, n),
        mem.contains_key(level1_table(mem, p4, n)),
{
    let (p3, p2, p1) = walk_tables(mem, p4, n)->0;
    lemma_table_index_bound(n, 4);
    lemma_table_index_bound(n, 3);
    lemma_table_index_bound(n, 2);
    lemma_table_index_bound(n, 1);
    lemma_next_table_in_memory(mem, p4, table_index(n, 4));
    lemma_next_table_in_memory(mem, p3, table_index(n, 3));
    lemma_next_table_in_memory(mem, p2, table_index(n, 2));
    lemma_unused_entry_has_no_flags();
    assert(mem.contains_key(p1));
}

/// `levels` gives each page table of `mem` its level: the level-4 table is in `p4`, and each
/// present entry of a table of level 2 to 4 that is not a huge page refers to a table of `mem`
/// one level down.
pub open spec fn layered_by(mem: TableMemory, p4: u64, levels: Map<u64, nat>) -> bool {
    &&& mem.contains_key(p4)
    &&& levels.contains_key(p4) && levels[p4] == 4
    &&& forall|f: u64, i: usize|
        #![trigger levels[f], next_table_of(mem, f, i)]
        levels.contains_key(f) && 2 <= levels[f] && i < ENTRY_COUNT && next_table_of(mem, f, i) is Some ==> {
            &&& mem.contains_key(next_table_of(mem, f, i)->0)
            &&& levels.contains_key(next_table_of(mem, f, i)->0)
            &&& levels[next_table_of(mem, f, i)->0] == levels[f] - 1
        }
}

/// The page tables of `mem` reached from `p4` form levels: no table is reached at two
/// levels, and no entry of a table refers to a frame that holds no table.
pub open spec fn layered(mem: TableMemory, p4: u64) -> bool {
    exists|levels: Map<u64, nat>| layered_by(mem, p4, levels)
}

/// In layered page tables, the tables that any walk reaches are pairwise distinct: they are
/// at different levels.
pub proof fn lemma_layered_paths_distinct(mem: TableMemory, p4: u64, n: u64)
    requires
        layered(mem, p4),
    ensures
        existing_path_distinct(mem, p4, n),
{
    let levels = choose|levels: Map<u64, nat>| layered_by(mem, p4, levels);
    lemma_table_index_bound(n, 4);
    lemma_table_index_bound(n, 3);
    lemma_table_index_bound(n, 2);
    let i4 = table_index(n, 4);
    let i3 = table_index(n, 3);
    let i2 = table_index(n, 2);
    assert(levels[p4] == 4);
    if next_table_of(mem, p4, i4) is Some {
        let p3 = next_table_of(mem, p4, i4)->0;
        assert(levels[p3] == 3);
        if next_table_of(mem, p3, i3) is Some {
            let p2 = next_table_of(mem, p3, i3)->0;
            assert(levels[p2] == 2);
            if next_table_of(mem, p2, i2) is Some {
                let p1 = next_table_of(mem, p2, i2)->0;
                assert(levels[p1] == 1);
            }
        }
    }
}

/// The levels of the tables of a walk in layered page tables: 3, 2 and 1 below the level-4
/// table.
proof fn lemma_walk_levels(mem: TableMemory, p4: u64, levels: Map<u64, nat>, n: u64)
    requires
        layered_by(mem, p4, levels),
        walk_tables(mem, p4, n) is Some,
    ensures
        ({
            let (p3, p2, p1) = walk_tables(mem, p4, n)->0;
            &&& levels.contains_key(p3) && levels[p3] == 3
            &&& levels.contains_key(p2) && levels[p2] == 2
            &&& levels.contains_key(p1) && levels[p1] == 1
            &&& mem.contains_key(p1)
        }),
{
    lemma_table_index_bound(n, 4);
    lemma_table_index_bound(n, 3);
    lemma_table_index_bound(n, 2);
    let (p3, p2, p1) = walk_tables(mem, p4, n)->0;
    assert(levels[p4] == 4);
    assert(next_table_of(mem, p4, table_index(n, 4)) == Some(p3));
    assert(levels[p3] == 3);
    assert(next_table_of(mem, p3, table_index(n, 3)) == Some(p2));
    assert(levels[p2] == 2);
    assert(next_table_of(mem, p2, table_index(n, 2)) == Some(p1));
}

/// Pointing an unused entry of a table of level 2 to 4 at a frame that held no table, and
/// storing an empty table there, keeps the tables layered, the new one a level down.
proof fn lemma_new_table_keeps_layers(
    mem: TableMemory,
    p4: u64,
    levels: Map<u64, nat>,
    table: u64,
    index: usize,
    t: u64,
)
    requires
        layered_by(mem, p4, levels),
        levels.contains_key(table),
        2 <= levels[table] <= 4,
        index < ENTRY_COUNT,
        table_at(mem, table).len() == ENTRY_COUNT,
        !mem.contains_key(t),
        t != table,
        t < FRAME_NUMBER_LIMIT,
    ensures
        layered_by(
            mem.insert(table, table_at(mem, table).update(index as int, entry_value(t, PRESENT | WRITABLE))).insert(
                t,
                zero_table(),
            ),
            p4,
            levels.insert(t, (levels[table] - 1) as nat),
        ),
{
    let mem2 = mem.insert(table, table_at(mem, table).update(index as int, entry_value(t, PRESENT | WRITABLE))).insert(
        t,
        zero_table(),
    );
    let levels2 = levels.insert(t, (levels[table] - 1) as nat);
    lemma_table_entry_value(t);
    lemma_unused_entry_has_no_flags();
    assert forall|f: u64, i: usize|
        #![trigger levels2[f], next_table_of(mem2, f, i)]
        levels2.contains_key(f) && 2 <= levels2[f] && i < ENTRY_COUNT && next_table_of(mem2, f, i) is Some implies {
            &&& mem2.contains_key(next_table_of(mem2, f, i)->0)
            &&& levels2.contains_key(next_table_of(mem2, f, i)->0)
            &&& levels2[next_table_of(mem2, f, i)->0] == levels2[f] - 1
        } by {
        if f == t {
            assert(entry_at(mem2, f, i) == 0u64);
        } else if f == table && i == index {
            assert(entry_at(mem2, f, i) == entry_value(t, PRESENT | WRITABLE));
        } else {
            assert(entry_at(mem2, f, i) == entry_at(mem, f, i));
            assert(levels[f] == levels2[f]);
            assert(next_table_of(mem, f, i) == next_table_of(mem2, f, i));
            let c = next_table_of(mem, f, i)->0;
            assert(mem.contains_key(c));
            assert(c != t);
        }
    }
}

/// One step of a walk that creates missing tables: the entry `index` of `table`, a table of
/// level 2 to 4, already referred to table `t`, or a fresh empty table `t` was stored and the
/// entry pointed at it. The tables stay layered, `t` one level below `table`.
proof fn lemma_create_step(
    mem: TableMemory,
    mem2: TableMemory,
    p4: u64,
    levels: Map<u64, nat>,
    table: u64,
    index: usize,
    t: u64,
) -> (levels2: Map<u64, nat>)
    requires
        layered_by(mem, p4, levels),
        levels.contains_key(table),
        2 <= levels[table] <= 4,
        index < ENTRY_COUNT,
        table_at(mem, table).len() == ENTRY_COUNT,
        match next_table_of(mem, table, index) {
            Some(c) => t == c && mem2 == mem,
            None => {
                &&& !mem.contains_key(t)
                &&& t != table
                &&& t < FRAME_NUMBER_LIMIT
                &&& mem2 == mem.insert(
                    table,
                    table_at(mem, table).update(index as int, entry_value(t, PRESENT | WRITABLE)),
                ).insert(t, zero_table())
            },
        },
    ensures
        layered_by(mem2, p4, levels2),
        levels2.contains_key(t),
        levels2[t] == levels[table] - 1,
{
    if next_table_of(mem, table, index) is Some {
        levels
    } else {
        lemma_new_table_keeps_layers(mem, p4, levels, table, index, t);
        levels.insert(t, (levels[table] - 1) as nat)
    }
}

/// Pointing an entry of a table of level 2 to 4 that is neither present nor huge at a new,
/// empty table leaves the translation of every page as it was: a walk that reads the entry
/// stopped there before, and stops in the empty table now.
proof fn lemma_new_table_keeps_translations(
    mem: TableMemory,
    p4: u64,
    levels: Map<u64, nat>,
    table: u64,
    index: usize,
    t: u64,
    q: u64,
)
    requires
        layered_by(mem, p4, levels),
        levels.contains_key(table),
        2 <= levels[table] <= 4,
        index < ENTRY_COUNT,
        table_at(mem, table).len() == ENTRY_COUNT,
        next_table_of(mem, table, index) is None,
        !entry_is_huge(entry_at(mem, table, index)),
        !mem.contains_key(t),
        t != table,
        t < FRAME_NUMBER_LIMIT,
    ensures
        ({
            let mem2 = mem.insert(
                table,
                table_at(mem, table).update(index as int, entry_value(t, PRESENT | WRITABLE)),
            ).insert(t, zero_table());
            translation(mem2, p4, q) == translation(mem, p4, q)
        }),
{
    let mem2 = mem.insert(
        table,
        table_at(mem, table).update(index as int, entry_value(t, PRESENT | WRITABLE)),
    ).insert(t, zero_table());
    lemma_unused_entry_has_no_flags();
    lemma_table_entry_value(t);
    lemma_table_index_bound(q, 1);
    lemma_table_index_bound(q, 2);
    lemma_table_index_bound(q, 3);
    lemma_table_index_bound(q, 4);
    assert(entry_at(mem, table, index) & PRESENT == 0);
    assert forall|f: u64, i: usize| i < ENTRY_COUNT && (f != table || i != index) implies #[trigger] entry_at(mem2, f, i)
        == entry_at(mem, f, i) by {
        if f == t {
            assert(table_at(mem, t) == zero_table());
        }
    }
    assert forall|i: usize| i < ENTRY_COUNT implies #[trigger] entry_at(mem2, t, i) == 0 by {
    }
    assert(entry_at(mem2, table, index) == entry_value(t, PRESENT | WRITABLE));
    let i4 = table_index(q, 4);
    let i3 = table_index(q, 3);
    let i2 = table_index(q, 2);
    let i1 = table_index(q, 1);
    assert(levels[p4] == 4);
    if table == p4 && index == i4 {
        assert(entry_at(mem2, t, i3) == 0);
    } else {
        assert(entry_at(mem2, p4, i4) == entry_at(mem, p4, i4));
        if let Some(p3) = next_table_of(mem, p4, i4) {
            assert(levels[p3] == 3);
            if table == p3 && index == i3 {
                assert(entry_at(mem2, t, i2) == 0);
            } else {
                assert(entry_at(mem2, p3, i3) == entry_at(mem, p3, i3));
                if let Some(p2) = next_table_of(mem, p3, i3) {
                    assert(levels[p2] == 2);
                    if table == p2 && index == i2 {
                        assert(entry_at(mem2, t, i1) == 0);
                    } else {
                        assert(entry_at(mem2, p2, i2) == entry_at(mem, p2, i2));
                        if let Some(p1) = next_table_of(mem, p2, i2) {
                            assert(levels[p1] == 1);
                            assert(entry_at(mem2, p1, i1) == entry_at(mem, p1, i1));
                        }
                    }
                }
            }
        }
    }
}

/// Clearing the level-1 entry of a page whose walk reaches a level-1 table keeps the tables
/// layered.
pub proof fn lemma_clear_leaf_keeps_layers(mem: TableMemory, p4: u64, n: u64)
    requires
        layered(mem, p4),
        walk_tables(mem, p4, n) is Some,
        table_at(mem, level1_table(mem, p4, n)).len() == ENTRY_COUNT,
    ensures
        layered(
            mem.insert(
                level1_table(mem, p4, n),
                table_at(mem, level1_table(mem, p4, n)).update(table_index(n, 1) as int, 0),
            ),
            p4,
        ),
{
    let levels = choose|l: Map<u64, nat>| layered_by(mem, p4, l);
    lemma_walk_levels(mem, p4, levels, n);
    lemma_table_index_bound(n, 1);
    lemma_leaf_write_keeps_layers(mem, p4, levels, level1_table(mem, p4, n), table_index(n, 1), 0);
}

/// Storing a table in a frame that held none keeps the tables layered: no entry of a layered
/// table refers to that frame, so no walk reaches the new table.
pub proof fn lemma_unreached_table_keeps_layers(mem: TableMemory, p4: u64, f: u64, t: Seq<u64>)
    requires
        layered(mem, p4),
        !mem.contains_key(f),
    ensures
        layered(mem.insert(f, t), p4),
{
    let levels = choose|l: Map<u64, nat>| layered_by(mem, p4, l);
    let mem2 = mem.insert(f, t);
    let levels2 = levels.remove(f);
    assert forall|g: u64, i: usize|
        #![trigger levels2[g], next_table_of(mem2, g, i)]
        levels2.contains_key(g) && 2 <= levels2[g] && i < ENTRY_COUNT && next_table_of(mem2, g, i) is Some implies {
            &&& mem2.contains_key(next_table_of(mem2, g, i)->0)
            &&& levels2.contains_key(next_table_of(mem2, g, i)->0)
            &&& levels2[next_table_of(mem2, g, i)->0] == levels2[g] - 1
        } by {
        assert(g != f);
        assert(entry_at(mem2, g, i) == entry_at(mem, g, i));
        assert(next_table_of(mem, g, i) == next_table_of(mem2, g, i));
        assert(levels[g] == levels2[g]);
    }
    assert(layered_by(mem2, p4, levels2));
}

/// The level-1 entry through which page `n` is mapped: its table and its index there.
pub open spec fn leaf_slot(mem: TableMemory, p4: u64, n: u64) -> (u64, usize) {
    (level1_table(mem, p4, n), table_index(n, 1))
}

/// Writing the level-1 entry of page `n` in layered tables leaves the walk of any page `q`
/// that reaches a level-1 table through another entry as it was, and that entry too.
pub proof fn lemma_leaf_write_keeps_other_walks(mem: TableMemory, p4: u64, n: u64, q: u64, v: u64)
    requires
        layered(mem, p4),
        walk_tables(mem, p4, n) is Some,
        walk_tables(mem, p4, q) is Some,
        leaf_slot(mem, p4, n) != leaf_slot(mem, p4, q),
        table_at(mem, level1_table(mem, p4, n)).len() == ENTRY_COUNT,
    ensures
        ({
            let mem2 = mem.insert(
                level1_table(mem, p4, n),
                table_at(mem, level1_table(mem, p4, n)).update(table_index(n, 1) as int, v),
            );
            &&& walk_tables(mem2, p4, q) == walk_tables(mem, p4, q)
            &&& entry_at(mem2, level1_table(mem, p4, q), table_index(q, 1)) == entry_at(
                mem,
                level1_table(mem, p4, q),
                table_index(q, 1),
            )
        }),
{
    let levels = choose|l: Map<u64, nat>| layered_by(mem, p4, l);
    lemma_walk_levels(mem, p4, levels, n);
    lemma_walk_levels(mem, p4, levels, q);
    lemma_table_index_bound(n, 1);
    lemma_table_index_bound(q, 1);
    lemma_table_index_bound(q, 2);
    lemma_table_index_bound(q, 3);
    lemma_table_index_bound(q, 4);
    let p1 = level1_table(mem, p4, n);
    let mem2 = mem.insert(p1, table_at(mem, p1).update(table_index(n, 1) as int, v));
    let (p3q, p2q, p1q) = walk_tables(mem, p4, q)->0;
    assert(levels[p4] == 4);
    assert(p1 != p4 && p1 != p3q && p1 != p2q);
    assert(entry_at(mem2, p4, table_index(q, 4)) == entry_at(mem, p4, table_index(q, 4)));
    assert(entry_at(mem2, p3q, table_index(q, 3)) == entry_at(mem, p3q, table_index(q, 3)));
    assert(entry_at(mem2, p2q, table_index(q, 2)) == entry_at(mem, p2q, table_index(q, 2)));
    assert(walk_tables(mem2, p4, q) == walk_tables(mem, p4, q));
}

/// Writing the level-1 entry of page `n` in layered tables leaves the walk of every page as
/// it was, and the translation of every page that does not reach that entry.
pub proof fn lemma_leaf_write_keeps_other_translations(mem: TableMemory, p4: u64, n: u64, q: u64, v: u64)
    requires
        layered(mem, p4),
        walk_tables(mem, p4, n) is Some,
        table_at(mem, level1_table(mem, p4, n)).len() == ENTRY_COUNT,
    ensures
        ({
            let mem2 = mem.insert(
                level1_table(mem, p4, n),
                table_at(mem, level1_table(mem, p4, n)).update(table_index(n, 1) as int, v),
            );
            &&& walk_tables(mem2, p4, q) == walk_tables(mem, p4, q)
            &&& (walk_tables(mem, p4, q) is Some ==> leaf_slot(mem, p4, n) != leaf_slot(mem, p4, q))
                ==> translation(mem2, p4, q) == translation(mem, p4, q)
        }),
{
    let levels = choose|l: Map<u64, nat>| layered_by(mem, p4, l);
    lemma_walk_levels(mem, p4, levels, n);
    lemma_table_index_bound(n, 1);
    lemma_table_index_bound(q, 1);
    lemma_table_index_bound(q, 2);
    lemma_table_index_bound(q, 3);
    lemma_table_index_bound(q, 4);
    let p1 = level1_table(mem, p4, n);
    let mem2 = mem.insert(p1, table_at(mem, p1).update(table_index(n, 1) as int, v));
    assert(levels[p4] == 4);
    assert(p1 != p4);
    assert(entry_at(mem2, p4, table_index(q, 4)) == entry_at(mem, p4, table_index(q, 4)));
    if let Some(p3) = next_table_of(mem, p4, table_index(q, 4)) {
        assert(levels[p3] == 3);
        assert(entry_at(mem2, p3, table_index(q, 3)) == entry_at(mem, p3, table_index(q, 3)));
        if let Some(p2) = next_table_of(mem, p3, table_index(q, 3)) {
            assert(levels[p2] == 2);
            assert(entry_at(mem2, p2, table_index(q, 2)) == entry_at(mem, p2, table_index(q, 2)));
            if let Some(p1q) = next_table_of(mem, p2, table_index(q, 2)) {
                assert(walk_tables(mem, p4, q) == Some((p3, p2, p1q)));
                if leaf_slot(mem, p4, n) != leaf_slot(mem, p4, q) {
                    assert(entry_at(mem2, p1q, table_index(q, 1)) == entry_at(mem, p1q, table_index(q, 1)));
                }
            }
        }
    }
    assert(walk_tables(mem2, p4, q) == walk_tables(mem, p4, q));
    if walk_tables(mem, p4, q) is Some ==> leaf_slot(mem, p4, n) != leaf_slot(mem, p4, q) {
        assert(walk_4k(mem2, p4, q) == walk_4k(mem, p4, q));
    }
    assert(walk_huge(mem2, p4, q) == walk_huge(mem, p4, q));
}

/// Writing an entry of a table of level 1 keeps the tables layered.
proof fn lemma_leaf_write_keeps_layers(mem: TableMemory, p4: u64, levels: Map<u64, nat>, table: u64, index: usize, v: u64)
    requires
        layered_by(mem, p4, levels),
        levels.contains_key(table),
        levels[table] == 1,
        mem.contains_key(table),
        index < ENTRY_COUNT,
        table_at(mem, table).len() == ENTRY_COUNT,
    ensures
        layered_by(mem.insert(table, table_at(mem, table).update(index as int, v)), p4, levels),
{
    let mem2 = mem.insert(table, table_at(mem, table).update(index as int, v));
    assert forall|f: u64, i: usize|
        #![trigger levels[f], next_table_of(mem2, f, i)]
        levels.contains_key(f) && 2 <= levels[f] && i < ENTRY_COUNT && next_table_of(mem2, f, i) is Some implies {
            &&& mem2.contains_key(next_table_of(mem2, f, i)->0)
            &&& levels.contains_key(next_table_of(mem2, f, i)->0)
            &&& levels[next_table_of(mem2, f, i)->0] == levels[f] - 1
        } by {
        assert(f != table);
        assert(entry_at(mem2, f, i) == entry_at(mem, f, i));
        assert(next_table_of(mem, f, i) == next_table_of(mem2, f, i));
    }
}

/// Every present entry of `mem` is unchanged in `mem2`.
pub open spec fn keeps_present(mem: TableMemory, mem2: TableMemory) -> bool {
    forall|f: u64, i: usize|
        i < ENTRY_COUNT && #[trigger] entry_at(mem, f, i) & PRESENT != 0 ==> entry_at(mem2, f, i) == entry_at(
            mem,
            f,
            i,
        )
}

pub proof fn lemma_keeps_present_trans(mem: TableMemory, mem2: TableMemory, mem3: TableMemory)
    requires
        keeps_present(mem, mem2),
        keeps_present(mem2, mem3),
    ensures
        keeps_present(mem, mem3),
{
    assert forall|f: u64, i: usize| i < ENTRY_COUNT && #[trigger] entry_at(mem, f, i) & PRESENT != 0 implies entry_at(mem3, f, i)
        == entry_at(mem, f, i) by {
        assert(entry_at(mem2, f, i) == entry_at(mem, f, i));
        assert(entry_at(mem2, f, i) & PRESENT != 0);
    }
}

/// A page that is mapped stays mapped to the same frame when every present entry stays as it
/// is: a walk that ends in a frame only reads present entries.
pub proof fn lemma_keeps_present_translation(mem: TableMemory, mem2: TableMemory, p4: u64, n: u64)
    requires
        keeps_present(mem, mem2),
        translation(mem, p4, n) is Some,
    ensures
        translation(mem2, p4, n) == translation(mem, p4, n),
{
    lemma_table_index_bound(n, 4);
    lemma_table_index_bound(n, 3);
    lemma_table_index_bound(n, 2);
    lemma_table_index_bound(n, 1);
    let i4 = table_index(n, 4);
    let i3 = table_index(n, 3);
    let i2 = table_index(n, 2);
    let i1 = table_index(n, 1);
    assert(entry_at(mem, p4, i4) & PRESENT != 0);
    assert(entry_at(mem2, p4, i4) == entry_at(mem, p4, i4));
    let p3 = next_table_of(mem, p4, i4)->0;
    assert(entry_at(mem, p3, i3) & PRESENT != 0);
    assert(entry_at(mem2, p3, i3) == entry_at(mem, p3, i3));
    if next_table_of(mem, p3, i3) is Some {
        let p2 = next_table_of(mem, p3, i3)->0;
        assert(entry_at(mem, p2, i2) & PRESENT != 0);
        assert(entry_at(mem2, p2, i2) == entry_at(mem, p2, i2));
        if next_table_of(mem, p2, i2) is Some {
            let p1 = next_table_of(mem, p2, i2)->0;
            assert(entry_at(mem, p1, i1) & PRESENT != 0);
            assert(entry_at(mem2, p1, i1) == entry_at(mem, p1, i1));
        }
    }
}

/// Page `q` is mapped through a level-1 entry whose raw value is `v`.
pub open spec fn leaf_holds(mem: TableMemory, p4: u64, q: u64, v: u64) -> bool {
    &&& walk_tables(mem, p4, q) is Some
    &&& entry_at(mem, level1_table(mem, p4, q), table_index(q, 1)) == v
}

/// Page `q` is mapped through a level-1 entry to some frame, with the flag bits `flags`.
pub open spec fn leaf_maps_with(mem: TableMemory, p4: u64, q: u64, flags: u64) -> bool {
    exists|f: u64| f < FRAME_NUMBER_LIMIT && #[trigger] leaf_holds(mem, p4, q, entry_value(f, flags))
}

/// A level-1 entry that is present stays as it is, and so does the walk to it, while the
/// present entries are kept.
pub proof fn lemma_keeps_present_leaf(mem: TableMemory, mem2: TableMemory, p4: u64, q: u64, v: u64)
    requires
        keeps_present(mem, mem2),
        leaf_holds(mem, p4, q, v),
        v & PRESENT != 0,
    ensures
        leaf_holds(mem2, p4, q, v),
{
    lemma_keeps_present_walk(mem, mem2, p4, q);
    lemma_table_index_bound(q, 1);
}

/// An entry pointing at a frame in range, with defined flags and the present flag, is present.
pub proof fn lemma_leaf_entry_present(f: u64, flags: u64)
    requires
        f < FRAME_NUMBER_LIMIT,
        flags & ALL_FLAGS == flags,
    ensures
        entry_value(f, flags | PRESENT) & PRESENT != 0,
{
    assert((flags | 1u64) & 1u64 != 0u64 && (flags | 1u64) & 0x8000_0000_0000_01ffu64 == flags | 1u64)
        by (bit_vector)
        requires
            flags & 0x8000_0000_0000_01ffu64 == flags,
    ;
    lemma_leaf_entry_value(f, flags | PRESENT);
}

/// Keeping the present entries keeps every walk that reaches a level-1 table.
pub proof fn lemma_keeps_present_walk(mem: TableMemory, mem2: TableMemory, p4: u64, n: u64)
    requires
        keeps_present(mem, mem2),
        walk_tables(mem, p4, n) is Some,
    ensures
        walk_tables(mem2, p4, n) == walk_tables(mem, p4, n),
{
    lemma_table_index_bound(n, 4);
    lemma_table_index_bound(n, 3);
    lemma_table_index_bound(n, 2);
    let (p3, p2, p1) = walk_tables(mem, p4, n)->0;
    assert(entry_at(mem, p4, table_index(n, 4)) & PRESENT != 0);
    assert(entry_at(mem2, p4, table_index(n, 4)) == entry_at(mem, p4, table_index(n, 4)));
    assert(entry_at(mem, p3, table_index(n, 3)) & PRESENT != 0);
    assert(entry_at(mem2, p3, table_index(n, 3)) == entry_at(mem, p3, table_index(n, 3)));
    assert(entry_at(mem, p2, table_index(n, 2)) & PRESENT != 0);
    assert(entry_at(mem2, p2, table_index(n, 2)) == entry_at(mem, p2, table_index(n, 2)));
}

/// Clearing entries never maps a page: a page mapped after keeping only the present entries
/// of the tables before was mapped before to the same frame.
pub proof fn lemma_unmapped_stays_unmapped(mem: TableMemory, mem2: TableMemory, p4: u64, n: u64)
    requires
        keeps_present(mem2, mem),
        translation(mem, p4, n) is None,
    ensures
        translation(mem2, p4, n) is None,
{
    if translation(mem2, p4, n) is Some {
        lemma_keeps_present_translation(mem2, mem, p4, n);
    }
}

/// How many tables the walk for page `n` lacks before it reaches a level-1 table.
pub open spec fn missing_tables(mem: TableMemory, p4: u64, n: u64) -> u64 {
    match next_table_of(mem, p4, table_index(n, 4)) {
        None => 3,
        Some(p3) => match next_table_of(mem, p3, table_index(n, 3)) {
            None => 2,
            Some(p2) => match next_table_of(mem, p2, table_index(n, 2)) {
                None => 1,
                Some(_) => 0,
            },
        },
    }
}

/// Frame `x` is one of the tables that the walk for page `n` already reaches.
pub open spec fn on_walk(mem: TableMemory, p4: u64, n: u64, x: u64) -> bool {
    ||| x == p4
    ||| next_table_of(mem, p4, table_index(n, 4)) == Some(x)
    ||| (next_table_of(mem, p4, table_index(n, 4)) matches Some(p3) && next_table_of(mem, p3, table_index(n, 3))
        == Some(x))
}

/// The answer that `alloc` gives to the call of `allocate_frame` after `skip + k` others.
pub open spec fn answer<A: FrameAllocator>(alloc: A, skip: u64, k: u64) -> Result<Frame, &'static str> {
    alloc.frame_after((skip + k) as u64)
}

/// Answer `skip + k` of `alloc` is a frame in range that holds no table and is not on the walk
/// for page `n`.
pub open spec fn table_frame_ok<A: FrameAllocator>(mem: TableMemory, p4: u64, n: u64, alloc: A, skip: u64, k: u64) -> bool {
    &&& answer(alloc, skip, k) is Ok
    &&& answer(alloc, skip, k)->Ok_0.number < FRAME_NUMBER_LIMIT
    &&& !mem.contains_key(answer(alloc, skip, k)->Ok_0.number)
    &&& !on_walk(mem, p4, n, answer(alloc, skip, k)->Ok_0.number)
}

/// The answers of `alloc` from the `skip`-th on give, one per table that the walk for page `n`
/// lacks, distinct frames in range that hold no table and are not on the walk.
pub open spec fn table_frames_ready<A: FrameAllocator>(mem: TableMemory, p4: u64, n: u64, alloc: A, skip: u64) -> bool {
    &&& skip + 3 < u64::MAX
    &&& forall|k: u64| k < missing_tables(mem, p4, n) ==> #[trigger] table_frame_ok(mem, p4, n, alloc, skip, k)
    &&& forall|k: u64, l: u64|
        k < l < missing_tables(mem, p4, n) ==> (#[trigger] answer(alloc, skip, k))->Ok_0.number
            != (#[trigger] answer(alloc, skip, l))->Ok_0.number
}

/// Reads page-table memory through the level-4 table in frame `p4`.
pub struct Mapper {
    p4: Frame,
    memory: BTreeMap<u64, Table>,
}

proof fn lemma_entry_frame_bound(e: u64)
    ensures
        (e & ADDRESS_MASK) / 4096 < FRAME_NUMBER_LIMIT,
{
    assert((e & 0x000fffff_fffff000u64) <= 0x000fffff_fffff000u64) by (bit_vector);
}

impl Mapper {
    /// The frame holding the level-4 table.
    pub closed spec fn p4_frame(&self) -> u64 {
        self.p4.number
    }

    /// The page tables, by frame.
    pub closed spec fn tables(&self) -> TableMemory {
        self.memory@.map_values(|t: Table| t@)
    }

    pub closed spec fn wf(&self) -> bool {
        &&& forall|f: u64| #[trigger] self.memory@.contains_key(f) ==> self.memory@[f].wf()
        &&& forall|f: u64| #[trigger] self.tables().contains_key(f) ==> self.tables()[f].len()
            == ENTRY_COUNT
    }

    /// Every table of a well-formed mapper, stored or not, has an entry per slot.
    pub proof fn lemma_tables_sized(&self)
        requires
            self.wf(),
        ensures
            forall|f: u64| #[trigger] table_at(self.tables(), f).len() == ENTRY_COUNT,
    {
    }

    /// A mapper over page-table memory holding only the (empty) level-4 table in `p4`.
    pub fn new_at(p4: Frame) -> (r: Mapper)
        ensures
            r.wf(),
            r.p4_frame() == p4.number,
            r.tables() == map![p4.number => zero_table()],
            layered(r.tables(), r.p4_frame()),
    {
        proof {
            lemma_keys_ordered();
        }
        let mut memory = BTreeMap::new();
        memory.insert(p4.number, Table::new());
        let r = Mapper { p4, memory };
        assert(r.tables() =~= map![p4.number => zero_table()]);
        proof {
            let levels = map![p4.number => 4nat];
            lemma_unused_entry_has_no_flags();
            assert(layered_by(r.tables(), p4.number, levels));
        }
        r
    }

    /// Entry `index` of the table in frame `table`.
    fn read_entry(&self, table: u64, index: usize) -> (r: Entry)
        requires
            self.wf(),
            index < ENTRY_COUNT,
        ensures
            r.0 == entry_at(self.tables(), table, index),
    {
        proof {
            lemma_keys_ordered();
        }
        match self.memory.get(&table) {
            Some(t) => t.entry(index),
            None => Entry(0),
        }
    }

    /// The next-level table referred to by entry `index` of the table in frame `table`.
    fn next_table(&self, table: u64, index: usize) -> (r: Option<u64>)
        requires
            self.wf(),
            index < ENTRY_COUNT,
        ensures
            r == next_table_of(self.tables(), table, index),
            r matches Some(f) ==> f < FRAME_NUMBER_LIMIT,
    {
        let entry = self.read_entry(table, index);
        let flags = entry.flags();
        let present = EntryFlags::from_bits_truncate(PRESENT);
        let huge = EntryFlags::from_bits_truncate(HUGE_PAGE);
        proof {
            let v = entry.0;
            assert((v & 0x8000_0000_0000_01ffu64) & (1u64 & 0x8000_0000_0000_01ffu64) == (1u64
                & 0x8000_0000_0000_01ffu64) <==> v & 1u64 != 0) by (bit_vector);
            assert((v & 0x8000_0000_0000_01ffu64) & (128u64 & 0x8000_0000_0000_01ffu64) == (128u64
                & 0x8000_0000_0000_01ffu64) <==> v & 128u64 != 0) by (bit_vector);
            lemma_entry_frame_bound(v);
        }
        if flags.contains(present) && !flags.contains(huge) {
            Some((entry.0 & ADDRESS_MASK) / (PAGE_SIZE as u64))
        } else {
            None
        }
    }

    /// Translates a virtual_memory address to the corresponding physical_memory address.
    /// Returns `None` if the address is not mapped.
    pub fn translate(&self, virtual_address: VirtualAddress) -> (r: Option<PhysicalAddress>)
        requires
            self.wf(),
            is_canonical(virtual_address),
            huge_pages_aligned(self.tables(), self.p4_frame(), virtual_address / PAGE_SIZE as u64),
        ensures
            match translation(self.tables(), self.p4_frame(), virtual_address / PAGE_SIZE as u64) {
                Some(f) => r == Some((f * PAGE_SIZE + virtual_address % PAGE_SIZE as u64) as u64),
                None => r is None,
            },
    {
        let offset = virtual_address % (PAGE_SIZE as u64);
        match self.translate_page(Page::containing_address(virtual_address)) {
            Some(frame) => Some(frame.number * (PAGE_SIZE as u64) + offset),
            None => None,
        }
    }

    /// The frame that `page` is mapped to, through a level-1 entry or a huge page.
    pub fn translate_page(&self, page: Page) -> (r: Option<Frame>)
        requires
            self.wf(),
            huge_pages_aligned(self.tables(), self.p4_frame(), page.number),
        ensures
            match translation(self.tables(), self.p4_frame(), page.number) {
                Some(f) => r == Some(Frame { number: f }),
                None => r is None,
            },
            r matches Some(f) ==> f.number < FRAME_NUMBER_LIMIT + ENTRY_COUNT * ENTRY_COUNT,
    {
        let ghost mem = self.tables();
        let ghost n = page.number;
        let p3 = self.next_table(self.p4.number, page.p4_index());
        let normal = match p3 {
            Some(p3) => match self.next_table(p3, page.p3_index()) {
                Some(p2) => match self.next_table(p2, page.p2_index()) {
                    Some(p1) => self.read_entry(p1, page.p1_index()).pointed_frame(),
                    None => None,
                },
                None => None,
            },
            None => None,
        };
        if normal.is_some() {
            proof {
                let (t3, t2, t1) = walk_tables(mem, self.p4_frame(), n)->0;
                lemma_entry_frame_bound(entry_at(mem, t1, table_index(n, 1)));
            }
            return normal;
        }
        // huge pages
        match p3 {
            None => None,
            Some(p3) => {
                let p3_entry = self.read_entry(p3, page.p3_index());
                // 1GiB page?
                if let Some(start_frame) = p3_entry.pointed_frame() {
                    let huge = EntryFlags::from_bits_truncate(HUGE_PAGE);
                    proof {
                        let v = p3_entry.0;
                        assert((v & 0x8000_0000_0000_01ffu64) & (128u64 & 0x8000_0000_0000_01ffu64)
                            == (128u64 & 0x8000_0000_0000_01ffu64) <==> v & 128u64 != 0)
                            by (bit_vector);
                        lemma_entry_frame_bound(v);
                    }
                    if p3_entry.flags().contains(huge) {
                        // address must be 1GiB aligned
                        return Some(
                            Frame {
                                number: start_frame.number + (page.p2_index() as u64) * (
                                ENTRY_COUNT as u64) + (page.p1_index() as u64),
                            },
                        );
                    }
                }
                if let Some(p2) = self.next_table(p3, page.p3_index()) {
                    let p2_entry = self.read_entry(p2, page.p2_index());
                    // 2MiB page?
                    if let Some(start_frame) = p2_entry.pointed_frame() {
                        let huge = EntryFlags::from_bits_truncate(HUGE_PAGE);
                        proof {
                            let v = p2_entry.0;
                            assert((v & 0x8000_0000_0000_01ffu64) & (128u64
                                & 0x8000_0000_0000_01ffu64) == (128u64 & 0x8000_0000_0000_01ffu64)
                                <==> v & 128u64 != 0) by (bit_vector);
                            lemma_entry_frame_bound(v);
                        }
                        if p2_entry.flags().contains(huge) {
                            // address must be 2MiB aligned
                            return Some(Frame { number: start_frame.number + (page.p1_index() as u64) });
                        }
                    }
                }
                None
            },
        }
    }

    /// Replaces entry `index` of the table in frame `table`.
    fn write_entry(&mut self, table: u64, index: usize, entry: Entry)
        requires
            old(self).wf(),
            index < ENTRY_COUNT,
        ensures
            final(self).wf(),
            final(self).p4_frame() == old(self).p4_frame(),
            final(self).tables() == old(self).tables().insert(
                table,
                table_at(old(self).tables(), table).update(index as int, entry.0),
            ),
    {
        proof {
            lemma_keys_ordered();
        }
        let mut t = match self.memory.remove(&table) {
            Some(t) => t,
            None => Table::new(),
        };
        t.set_entry(index, entry);
        self.memory.insert(table, t);
        proof {
            assert(self.tables() =~= old(self).tables().insert(
                table,
                table_at(old(self).tables(), table).update(index as int, entry.0),
            ));
        }
    }

    /// The next-level table referred to by entry `index` of the table in frame `table`; when
    /// there is none, a frame from `allocator` becomes a new, empty table and the entry is
    /// pointed at it, present and writable.
    fn next_table_create<A: FrameAllocator>(&mut self, table: u64, index: usize, allocator: &mut A) -> (r: Result<u64, &'static str>)
        requires
            old(allocator).wf_allocator(),
            old(self).wf(),
            index < ENTRY_COUNT,
            next_table_of(old(self).tables(), table, index) is None ==> !entry_is_huge(
                entry_at(old(self).tables(), table, index),
            ),
        ensures
            final(allocator).wf_allocator(),
            final(self).wf(),
            final(self).p4_frame() == old(self).p4_frame(),
            keeps_present(old(self).tables(), final(self).tables()),
            match next_table_of(old(self).tables(), table, index) {
                Some(t) => r == Ok::<u64, &'static str>(t) && final(self).tables() == old(self).tables()
                    && *final(allocator) == *old(allocator),
                None => match r {
                    Ok(t) => {
                        &&& !old(self).tables().contains_key(t)
                        &&& t != table
                        &&& t < FRAME_NUMBER_LIMIT
                        &&& final(self).tables() == old(self).tables().insert(
                            table,
                            table_at(old(self).tables(), table).update(
                                index as int,
                                entry_value(t, PRESENT | WRITABLE),
                            ),
                        ).insert(t, zero_table())
                    },
                    Err(_) => final(self).tables() == old(self).tables(),
                },
            },
            next_table_of(old(self).tables(), table, index) is None ==> forall|j: u64|
                j < u64::MAX ==> #[trigger] final(allocator).frame_after(j) == old(allocator).frame_after((j + 1) as u64),
            next_table_of(old(self).tables(), table, index) is None ==> match old(allocator).frame_after(0) {
                Ok(f) => f.number < FRAME_NUMBER_LIMIT && f.number != table && !old(self).tables().contains_key(f.number)
                    ==> r == Ok::<u64, &'static str>(f.number),
                Err(_) => r is Err,
            },
    {
        proof {
            lemma_keys_ordered();
        }
        if let Some(t) = self.next_table(table, index) {
            return Ok(t);
        }
        let frame = match allocator.allocate_frame() {
            Ok(frame) => frame,
            Err(_) => {
                return Err("no frames available");
            },
        };
        if frame.number >= FRAME_NUMBER_LIMIT {
            return Err("frame outside the physical address range");
        }
        if frame.number == table || self.memory.contains_key(&frame.number) {
            return Err("frame already holds a page table");
        }
        let mut entry = self.read_entry(table, index);
        let flags = EntryFlags::from_bits_truncate(PRESENT).union(
            EntryFlags::from_bits_truncate(WRITABLE),
        );
        proof {
            assert((1u64 & 0x8000_0000_0000_01ffu64) | (2u64 & 0x8000_0000_0000_01ffu64) == 1u64
                | 2u64) by (bit_vector);
        }
        entry.set(frame, flags);
        self.write_entry(table, index, entry);
        self.memory.insert(frame.number, Table::new());
        proof {
            let mem = old(self).tables();
            assert(self.tables() =~= mem.insert(
                table,
                table_at(mem, table).update(
                    index as int,
                    entry_value(frame.number, PRESENT | WRITABLE),
                ),
            ).insert(frame.number, zero_table()));
            lemma_unused_entry_has_no_flags();
            assert forall|f: u64, i: usize| i < ENTRY_COUNT && #[trigger] entry_at(mem, f, i) & PRESENT != 0 implies entry_at(
                self.tables(),
                f,
                i,
            ) == entry_at(mem, f, i) by {
                assert(f != frame.number);
                if f == table {
                    assert(i != index);
                }
            }
        }
        Ok(frame.number)
    }

    /// Walks to the level-1 table for `page`, creating each missing table on the way with
    /// `next_table_create`; returns the frame of the level-1 table.
    fn create_path<A: FrameAllocator>(&mut self, page: Page, allocator: &mut A) -> (r: Result<u64, &'static str>)
        requires
            old(allocator).wf_allocator(),
            old(self).wf(),
            no_huge_on_path(old(self).tables(), old(self).p4_frame(), page.number),
        ensures
            final(allocator).wf_allocator(),
            final(self).wf(),
            final(self).p4_frame() == old(self).p4_frame(),
            keeps_present(old(self).tables(), final(self).tables()),
            walk_tables(old(self).tables(), old(self).p4_frame(), page.number) is Some ==> {
                &&& r == Ok::<u64, &'static str>(level1_table(old(self).tables(), old(self).p4_frame(), page.number))
                &&& final(self).tables() == old(self).tables()
                &&& *final(allocator) == *old(allocator)
            },
            r matches Ok(p1) ==> {
                &&& walk_tables(final(self).tables(), final(self).p4_frame(), page.number) is Some
                &&& level1_table(final(self).tables(), final(self).p4_frame(), page.number) == p1
                &&& leaf_unused(old(self).tables(), old(self).p4_frame(), page.number) ==> entry_at(
                    final(self).tables(),
                    p1,
                    table_index(page.number, 1),
                ) == 0
                &&& existing_path_distinct(old(self).tables(), old(self).p4_frame(), page.number)
                    ==> existing_path_distinct(final(self).tables(), final(self).p4_frame(), page.number)
            },
            layered(old(self).tables(), old(self).p4_frame()) ==> layered(final(self).tables(), final(self).p4_frame()),
            table_frames_ready(old(self).tables(), old(self).p4_frame(), page.number, *old(allocator), 0) ==> {
                &&& r is Ok
                &&& forall|j: u64|
                    j + missing_tables(old(self).tables(), old(self).p4_frame(), page.number) < u64::MAX
                        ==> #[trigger] final(allocator).frame_after(j) == old(allocator).frame_after(
                        (j + missing_tables(old(self).tables(), old(self).p4_frame(), page.number)) as u64,
                    )
            },
            layered(old(self).tables(), old(self).p4_frame()) ==> forall|q: u64|
                #[trigger] translation(final(self).tables(), final(self).p4_frame(), q) == translation(
                    old(self).tables(),
                    old(self).p4_frame(),
                    q,
                ),
    {
        let ghost n = page.number;
        let ghost p4 = self.p4.number;
        let ghost mem0 = self.tables();
        let ghost lay = layered(mem0, p4);
        let ghost alloc0 = *allocator;
        let ghost ready = table_frames_ready(mem0, p4, n, alloc0, 0);
        let ghost missing = missing_tables(mem0, p4, n);
        let ghost mut levels: Map<u64, nat> = Map::empty();
        proof {
            if lay {
                levels = choose|l: Map<u64, nat>| layered_by(mem0, p4, l);
                assert(table_at(mem0, p4).len() == ENTRY_COUNT);
            }
        }
        let i4 = page.p4_index();
        let i3 = page.p3_index();
        let i2 = page.p2_index();
        proof {
            if ready && next_table_of(mem0, p4, i4) is None {
                assert(table_frame_ok(mem0, p4, n, alloc0, 0, 0));
                assert(answer(alloc0, 0, 0) == alloc0.frame_after(0));
            }
        }
        let p3 = match self.next_table_create(self.p4.number, i4, allocator) {
            Ok(t) => t,
            Err(e) => {
                proof {
                    if lay {
                        assert(layered_by(self.tables(), p4, levels));
                    }
                }
                return Err(e);
            },
        };
        let ghost mem1 = self.tables();
        let ghost alloc1 = *allocator;
        let ghost used1: u64 = if next_table_of(mem0, p4, i4) is None { 1 } else { 0 };
        proof {
            if ready && next_table_of(mem0, p4, i4) is None {
                assert(table_frame_ok(mem0, p4, n, alloc0, 0, 0));
                assert(p3 == answer(alloc0, 0, 0)->Ok_0.number);
            }
        }
        let ghost distinct = existing_path_distinct(mem0, p4, n);
        proof {
            lemma_unused_entry_has_no_flags();
            if next_table_of(mem0, p4, i4) is None {
                lemma_table_entry_value(p3);
                assert(table_at(mem1, p3) == zero_table());
            } else {
                assert(mem1 == mem0);
            }
            assert(next_table_of(mem1, p4, i4) == Some(p3));
            lemma_next_table_in_memory(mem1, p4, i4);
            assert(distinct ==> p3 != p4);
            if lay {
                assert forall|q: u64| #[trigger] translation(mem1, p4, q) == translation(mem0, p4, q) by {
                    if next_table_of(mem0, p4, i4) is None {
                        lemma_new_table_keeps_translations(mem0, p4, levels, p4, i4, p3, q);
                    }
                }
                levels = lemma_create_step(mem0, mem1, p4, levels, p4, i4, p3);
                assert(table_at(mem1, p3).len() == ENTRY_COUNT);
            }
        }
        proof {
            if ready && next_table_of(mem1, p3, i3) is None {
                assert(alloc1.frame_after(0) == alloc0.frame_after(used1));
                assert(table_frame_ok(mem0, p4, n, alloc0, 0, used1));
                assert(answer(alloc0, 0, used1) == alloc0.frame_after(used1));
                if used1 == 1 {
                    assert(answer(alloc0, 0, 0)->Ok_0.number != answer(alloc0, 0, 1)->Ok_0.number);
                }
            }
        }
        let p2 = match self.next_table_create(p3, i3, allocator) {
            Ok(t) => t,
            Err(e) => {
                proof {
                    if lay {
                        assert(layered_by(self.tables(), p4, levels));
                    }
                }
                return Err(e);
            },
        };
        let ghost mem2 = self.tables();
        let ghost alloc2 = *allocator;
        let ghost used2: u64 = if next_table_of(mem1, p3, i3) is None { (used1 + 1) as u64 } else { used1 };
        proof {
            if ready && next_table_of(mem1, p3, i3) is None {
                assert(p2 == answer(alloc0, 0, used1)->Ok_0.number);
            }
        }
        proof {
            if next_table_of(mem1, p3, i3) is None {
                lemma_table_entry_value(p2);
                assert(table_at(mem2, p2) == zero_table());
            } else {
                assert(mem2 == mem1);
                if next_table_of(mem0, p4, i4) is None {
                    assert(entry_at(mem1, p3, i3) == 0);
                    assert(false);
                }
            }
            assert(next_table_of(mem2, p3, i3) == Some(p2));
            lemma_next_table_in_memory(mem2, p3, i3);
            assert(entry_at(mem2, p4, i4) == entry_at(mem1, p4, i4));
            assert(next_table_of(mem2, p4, i4) == Some(p3));
            if distinct {
                assert(p2 != p3 && p2 != p4);
            }
            if lay {
                assert forall|q: u64| #[trigger] translation(mem2, p4, q) == translation(mem0, p4, q) by {
                    if next_table_of(mem1, p3, i3) is None {
                        lemma_new_table_keeps_translations(mem1, p4, levels, p3, i3, p2, q);
                    }
                    assert(translation(mem1, p4, q) == translation(mem0, p4, q));
                }
                levels = lemma_create_step(mem1, mem2, p4, levels, p3, i3, p2);
                assert(table_at(mem2, p2).len() == ENTRY_COUNT);
            }
        }
        proof {
            if ready && next_table_of(mem2, p2, i2) is None {
                assert(alloc2.frame_after(0) == alloc0.frame_after(used2));
                assert(table_frame_ok(mem0, p4, n, alloc0, 0, used2));
                assert(answer(alloc0, 0, used2) == alloc0.frame_after(used2));
                if used2 >= 1 {
                    assert(answer(alloc0, 0, (used2 - 1) as u64)->Ok_0.number != answer(alloc0, 0, used2)->Ok_0.number);
                }
                if used2 == 2 {
                    assert(answer(alloc0, 0, 0)->Ok_0.number != answer(alloc0, 0, 2)->Ok_0.number);
                }
            }
        }
        let p1 = match self.next_table_create(p2, i2, allocator) {
            Ok(t) => t,
            Err(e) => {
                proof {
                    if lay {
                        assert(layered_by(self.tables(), p4, levels));
                    }
                }
                return Err(e);
            },
        };
        proof {
            let mem3 = self.tables();
            let i1 = table_index(n, 1);
            lemma_table_index_bound(n, 1);
            if next_table_of(mem2, p2, i2) is None {
                lemma_table_entry_value(p1);
                assert(table_at(mem3, p1) == zero_table());
            } else {
                assert(mem3 == mem2);
                if next_table_of(mem1, p3, i3) is None {
                    assert(entry_at(mem2, p2, i2) == 0);
                    assert(false);
                }
                if next_table_of(mem0, p4, i4) is None {
                    assert(false);
                }
                assert(mem2 == mem0);
            }
            assert(next_table_of(mem3, p2, i2) == Some(p1));
            assert(entry_at(mem3, p4, i4) == entry_at(mem2, p4, i4));
            assert(entry_at(mem3, p3, i3) == entry_at(mem2, p3, i3));
            assert(walk_tables(mem3, p4, n) == Some((p3, p2, p1)));
            if leaf_unused(mem0, p4, n) {
                assert(entry_at(mem3, p1, i1) == 0);
            }
            if distinct {
                assert(p1 != p2 && p1 != p3 && p1 != p4);
            }
        }
        proof {
            if lay {
                assert forall|q: u64| #[trigger] translation(self.tables(), p4, q) == translation(mem0, p4, q) by {
                    if next_table_of(mem2, p2, i2) is None {
                        lemma_new_table_keeps_translations(mem2, p4, levels, p2, i2, p1, q);
                    }
                    assert(translation(mem2, p4, q) == translation(mem0, p4, q));
                }
                levels = lemma_create_step(mem2, self.tables(), p4, levels, p2, i2, p1);
                assert(layered_by(self.tables(), p4, levels));
            }
        }
        Ok(p1)
    }

    /// Whether the entry `index` of the table in frame `table` maps a huge page.
    fn entry_is_huge_at(&self, table: u64, index: usize) -> (r: bool)
        requires
            self.wf(),
            index < ENTRY_COUNT,
        ensures
            r == entry_is_huge(entry_at(self.tables(), table, index)),
    {
        let entry = self.read_entry(table, index);
        let huge = EntryFlags::from_bits_truncate(HUGE_PAGE);
        proof {
            let v = entry.0;
            assert((v & 0x8000_0000_0000_01ffu64) & (128u64 & 0x8000_0000_0000_01ffu64) == (128u64
                & 0x8000_0000_0000_01ffu64) <==> v & 128u64 != 0) by (bit_vector);
        }
        entry.flags().contains(huge)
    }

    /// Whether `page` can be mapped: no huge page blocks its walk, and the walk does not reach
    /// a level-1 entry in use.
    pub fn can_map(&self, page: Page) -> (r: bool)
        requires
            self.wf(),
        ensures
            r == (no_huge_on_path(self.tables(), self.p4_frame(), page.number) && leaf_unused(
                self.tables(),
                self.p4_frame(),
                page.number,
            )),
    {
        let p4 = self.p4.number;
        let i4 = page.p4_index();
        let i3 = page.p3_index();
        let i2 = page.p2_index();
        let i1 = page.p1_index();
        match self.next_table(p4, i4) {
            None => !self.entry_is_huge_at(p4, i4),
            Some(p3) => match self.next_table(p3, i3) {
                None => !self.entry_is_huge_at(p3, i3),
                Some(p2) => match self.next_table(p2, i2) {
                    None => !self.entry_is_huge_at(p2, i2),
                    Some(p1) => self.read_entry(p1, i1).is_unused(),
                },
            },
        }
    }

    /// Whether `page` is mapped through a level-1 entry.
    pub fn is_mapped_4k(&self, page: Page) -> (r: bool)
        requires
            self.wf(),
        ensures
            r == (walk_tables(self.tables(), self.p4_frame(), page.number) is Some && translation(
                self.tables(),
                self.p4_frame(),
                page.number,
            ) is Some),
    {
        let p4 = self.p4.number;
        match self.next_table(p4, page.p4_index()) {
            None => false,
            Some(p3) => match self.next_table(p3, page.p3_index()) {
                None => false,
                Some(p2) => match self.next_table(p2, page.p2_index()) {
                    None => false,
                    Some(p1) => {
                        proof {
                            lemma_translation_is_4k(self.tables(), p4, page.number);
                        }
                        self.read_entry(p1, page.p1_index()).pointed_frame().is_some()
                    },
                },
            },
        }
    }

    /// Maps the page to the frame with the provided flags.
    /// The `PRESENT` flag is added by default. Needs a
    /// `FrameAllocator` as it might need to create new page tables.
    pub fn map_to<A: FrameAllocator>(&mut self, page: Page, frame: Frame, flags: EntryFlags, allocator: &mut A) -> (r: Result<(), &'static str>)
        requires
            old(allocator).wf_allocator(),
            old(self).wf(),
            frame.number < FRAME_NUMBER_LIMIT,
            no_huge_on_path(old(self).tables(), old(self).p4_frame(), page.number),
            leaf_unused(old(self).tables(), old(self).p4_frame(), page.number),
        ensures
            r is Ok && layered(old(self).tables(), old(self).p4_frame()) ==> forall|q: u64|
                #[trigger] translation(leaf_cleared(final(self).tables(), final(self).p4_frame(), page.number), final(self).p4_frame(), q)
                    == translation(old(self).tables(), old(self).p4_frame(), q),
            table_frames_ready(old(self).tables(), old(self).p4_frame(), page.number, *old(allocator), 0) ==> {
                &&& r is Ok
                &&& forall|j: u64|
                    j + missing_tables(old(self).tables(), old(self).p4_frame(), page.number) < u64::MAX
                        ==> #[trigger] final(allocator).frame_after(j) == old(allocator).frame_after(
                        (j + missing_tables(old(self).tables(), old(self).p4_frame(), page.number)) as u64,
                    )
            },
            r is Err ==> walk_tables(old(self).tables(), old(self).p4_frame(), page.number) is None,
            final(allocator).wf_allocator(),
            final(self).wf(),
            final(self).p4_frame() == old(self).p4_frame(),
            keeps_present(old(self).tables(), final(self).tables()),
            forall|q: u64|
                #[trigger] translation(old(self).tables(), old(self).p4_frame(), q) is Some ==> translation(
                    final(self).tables(),
                    final(self).p4_frame(),
                    q,
                ) == translation(old(self).tables(), old(self).p4_frame(), q),
            r is Ok && existing_path_distinct(old(self).tables(), old(self).p4_frame(), page.number)
                ==> {
                &&& walk_tables(final(self).tables(), final(self).p4_frame(), page.number) is Some
                &&& entry_at(
                    final(self).tables(),
                    level1_table(final(self).tables(), final(self).p4_frame(), page.number),
                    table_index(page.number, 1),
                ) == entry_value(frame.number, flags@ | PRESENT)
                &&& translation(final(self).tables(), final(self).p4_frame(), page.number) == Some(
                    frame.number,
                )
            },
            layered(old(self).tables(), old(self).p4_frame()) ==> layered(final(self).tables(), final(self).p4_frame()),
            r is Ok && layered(old(self).tables(), old(self).p4_frame()) ==> translation(
                final(self).tables(),
                final(self).p4_frame(),
                page.number,
            ) == Some(frame.number),
            layered(old(self).tables(), old(self).p4_frame()) ==> forall|q: u64|
                (walk_tables(final(self).tables(), final(self).p4_frame(), q) is Some ==> leaf_slot(
                    final(self).tables(),
                    final(self).p4_frame(),
                    q,
                ) != leaf_slot(final(self).tables(), final(self).p4_frame(), page.number)) ==> #[trigger] translation(
                    final(self).tables(),
                    final(self).p4_frame(),
                    q,
                ) == translation(old(self).tables(), old(self).p4_frame(), q),
            walk_tables(old(self).tables(), old(self).p4_frame(), page.number) is Some ==> {
                &&& r is Ok
                &&& *final(allocator) == *old(allocator)
                &&& final(self).tables() == old(self).tables().insert(
                    level1_table(old(self).tables(), old(self).p4_frame(), page.number),
                    table_at(
                        old(self).tables(),
                        level1_table(old(self).tables(), old(self).p4_frame(), page.number),
                    ).update(table_index(page.number, 1) as int, entry_value(frame.number, flags@ | PRESENT)),
                )
            },
    {
        let ghost n = page.number;
        let ghost p4 = self.p4.number;
        let ghost mem0 = self.tables();
        let p1 = match self.create_path(page, allocator) {
            Ok(t) => t,
            Err(e) => {
                proof {
                    assert forall|q: u64| #[trigger] translation(mem0, p4, q) is Some implies translation(
                        self.tables(),
                        p4,
                        q,
                    ) == translation(mem0, p4, q) by {
                        lemma_keeps_present_translation(mem0, self.tables(), p4, q);
                    }
                }
                return Err(e);
            },
        };
        let ghost mem3 = self.tables();
        let i1 = page.p1_index();
        // the entry is unused: either the level-1 table is new, or the caller said so
        let mut entry = self.read_entry(p1, i1);
        // the flags hold defined bits only
        let bits = flags.bits();
        let present = EntryFlags::from_bits_truncate(PRESENT);
        let leaf_flags = flags.union(present);
        proof {
            let fl = flags@;
            assert(bits == fl);
            assert(fl | (1u64 & 0x8000_0000_0000_01ffu64) == fl | 1u64) by (bit_vector);
        }
        entry.set(frame, leaf_flags);
        self.write_entry(p1, i1, entry);
        proof {
            let mem4 = self.tables();
            lemma_table_index_bound(n, 1);
            lemma_unused_entry_has_no_flags();
            assert(keeps_present(mem3, mem4)) by {
                assert forall|f: u64, i: usize| i < ENTRY_COUNT && #[trigger] entry_at(mem3, f, i) & PRESENT != 0 implies entry_at(
                    mem4,
                    f,
                    i,
                ) == entry_at(mem3, f, i) by {
                    if f == p1 {
                        assert(i != i1);
                    }
                }
            }
            lemma_keeps_present_trans(mem0, mem3, mem4);
            assert forall|q: u64| #[trigger] translation(mem0, p4, q) is Some implies translation(mem4, p4, q)
                == translation(mem0, p4, q) by {
                lemma_keeps_present_translation(mem0, mem4, p4, q);
            }
            if existing_path_distinct(mem0, p4, n) {
                let (p3, p2, q1) = walk_tables(mem3, p4, n)->0;
                assert(q1 == p1);
                assert(table_at(mem4, p4) == table_at(mem3, p4));
                assert(table_at(mem4, p3) == table_at(mem3, p3));
                assert(table_at(mem4, p2) == table_at(mem3, p2));
                assert(walk_tables(mem4, p4, n) == Some((p3, p2, p1)));
                let fl = flags@;
                assert((fl | 1u64) & 1u64 != 0u64 && (fl | 1u64) & 0x8000_0000_0000_01ffu64 == fl
                    | 1u64) by (bit_vector)
                    requires
                        fl & 0x8000_0000_0000_01ffu64 == fl,
                ;
                lemma_leaf_entry_value(frame.number, flags@ | PRESENT);
            }
            if layered(mem0, p4) {
                lemma_layered_paths_distinct(mem0, p4, n);
                let levels = choose|l: Map<u64, nat>| layered_by(mem3, p4, l);
                lemma_walk_levels(mem3, p4, levels, n);
                assert(table_at(mem3, p1).len() == ENTRY_COUNT);
                lemma_leaf_write_keeps_layers(mem3, p4, levels, p1, i1, entry.0);
                assert(layered_by(mem4, p4, levels));
                lemma_walk_levels(mem3, p4, levels, n);
                assert(walk_tables(mem4, p4, n) == walk_tables(mem3, p4, n)) by {
                    lemma_leaf_write_keeps_other_translations(mem3, p4, n, n, entry.0);
                }
                assert(table_at(mem3, p1).update(i1 as int, entry.0).update(i1 as int, 0) =~= table_at(mem3, p1));
                assert(leaf_cleared(mem4, p4, n) =~= mem3);
                assert forall|q: u64|
                    (walk_tables(mem4, p4, q) is Some ==> leaf_slot(mem4, p4, q) != leaf_slot(mem4, p4, n))
                    implies #[trigger] translation(mem4, p4, q) == translation(mem0, p4, q) by {
                    lemma_leaf_write_keeps_other_translations(mem3, p4, n, q, entry.0);
                    lemma_leaf_write_keeps_other_translations(mem3, p4, n, n, entry.0);
                    assert(translation(mem3, p4, q) == translation(mem0, p4, q));
                }
            }
        }
        Ok(())
    }

    /// Maps the page to some free frame with the provided flags.
    /// The free frame is allocated from the given `FrameAllocator`.
    pub fn map<A: FrameAllocator>(&mut self, page: Page, flags: EntryFlags, allocator: &mut A) -> (r: Result<(), &'static str>)
        requires
            old(allocator).wf_allocator(),
            old(self).wf(),
            no_huge_on_path(old(self).tables(), old(self).p4_frame(), page.number),
            leaf_unused(old(self).tables(), old(self).p4_frame(), page.number),
        ensures
            final(allocator).wf_allocator(),
            final(self).wf(),
            final(self).p4_frame() == old(self).p4_frame(),
            forall|q: u64|
                #[trigger] translation(old(self).tables(), old(self).p4_frame(), q) is Some ==> translation(
                    final(self).tables(),
                    final(self).p4_frame(),
                    q,
                ) == translation(old(self).tables(), old(self).p4_frame(), q),
            r is Ok && existing_path_distinct(old(self).tables(), old(self).p4_frame(), page.number)
                ==> translation(final(self).tables(), final(self).p4_frame(), page.number) is Some,
            layered(old(self).tables(), old(self).p4_frame()) ==> layered(final(self).tables(), final(self).p4_frame()),
            r is Ok && layered(old(self).tables(), old(self).p4_frame()) ==> translation(
                final(self).tables(),
                final(self).p4_frame(),
                page.number,
            ) is Some,
            layered(old(self).tables(), old(self).p4_frame()) ==> forall|q: u64|
                (walk_tables(final(self).tables(), final(self).p4_frame(), q) is Some ==> leaf_slot(
                    final(self).tables(),
                    final(self).p4_frame(),
                    q,
                ) != leaf_slot(final(self).tables(), final(self).p4_frame(), page.number)) ==> #[trigger] translation(
                    final(self).tables(),
                    final(self).p4_frame(),
                    q,
                ) == translation(old(self).tables(), old(self).p4_frame(), q),
            match old(allocator).frame_after(0) {
                Err(_) => r is Err && final(self).tables() == old(self).tables(),
                Ok(f) => {
                    &&& f.number >= FRAME_NUMBER_LIMIT ==> r is Err && final(self).tables() == old(self).tables()
                    &&& r is Ok && layered(old(self).tables(), old(self).p4_frame()) ==> translation(
                        final(self).tables(),
                        final(self).p4_frame(),
                        page.number,
                    ) == Some(f.number)
                    &&& f.number < FRAME_NUMBER_LIMIT && table_frames_ready(
                        old(self).tables(),
                        old(self).p4_frame(),
                        page.number,
                        *old(allocator),
                        1,
                    ) ==> r is Ok
                    &&& f.number < FRAME_NUMBER_LIMIT && walk_tables(old(self).tables(), old(self).p4_frame(), page.number)
                        is Some ==> {
                        &&& r is Ok
                        &&& final(self).tables() == old(self).tables().insert(
                            level1_table(old(self).tables(), old(self).p4_frame(), page.number),
                            table_at(
                                old(self).tables(),
                                level1_table(old(self).tables(), old(self).p4_frame(), page.number),
                            ).update(table_index(page.number, 1) as int, entry_value(f.number, flags@ | PRESENT)),
                        )
                    }
                },
            },
    {
        let frame = match allocator.allocate_frame() {
            Ok(frame) => frame,
            Err(_) => {
                return Err("out of memory");
            },
        };
        if frame.number >= FRAME_NUMBER_LIMIT {
            return Err("frame outside the physical address range");
        }
        proof {
            let mem = self.tables();
            let p4 = self.p4_frame();
            let n = page.number;
            if table_frames_ready(mem, p4, n, *old(allocator), 1) {
                assert forall|k: u64| k < missing_tables(mem, p4, n) implies #[trigger] table_frame_ok(
                    mem,
                    p4,
                    n,
                    *allocator,
                    0,
                    k,
                ) by {
                    assert(table_frame_ok(mem, p4, n, *old(allocator), 1, k));
                    assert(answer(*allocator, 0, k) == answer(*old(allocator), 1, k));
                }
                assert forall|k: u64, l: u64| k < l < missing_tables(mem, p4, n) implies (#[trigger] answer(
                    *allocator,
                    0,
                    k,
                ))->Ok_0.number != (#[trigger] answer(*allocator, 0, l))->Ok_0.number by {
                    assert(answer(*allocator, 0, k) == answer(*old(allocator), 1, k));
                    assert(answer(*allocator, 0, l) == answer(*old(allocator), 1, l));
                }
                assert(table_frames_ready(mem, p4, n, *allocator, 0));
            }
        }
        self.map_to(page, frame, flags, allocator)
    }

    /// Identity map the given frame with the provided flags such that its virtual_memory address corresponds
    /// to its physical_memory address. The `FrameAllocator` is used to create new page tables if needed.
    pub fn identity_map<A: FrameAllocator>(&mut self, frame: Frame, flags: EntryFlags, allocator: &mut A) -> (r: Result<(), &'static str>)
        requires
            old(allocator).wf_allocator(),
            old(self).wf(),
            frame.number < FRAME_NUMBER_LIMIT,
            is_canonical((frame.number * PAGE_SIZE) as u64),
            no_huge_on_path(old(self).tables(), old(self).p4_frame(), frame.number),
            leaf_unused(old(self).tables(), old(self).p4_frame(), frame.number),
        ensures
            table_frames_ready(old(self).tables(), old(self).p4_frame(), frame.number, *old(allocator), 0) ==> {
                &&& r is Ok
                &&& forall|j: u64|
                    j + missing_tables(old(self).tables(), old(self).p4_frame(), frame.number) < u64::MAX
                        ==> #[trigger] final(allocator).frame_after(j) == old(allocator).frame_after(
                        (j + missing_tables(old(self).tables(), old(self).p4_frame(), frame.number)) as u64,
                    )
            },
            r is Err ==> walk_tables(old(self).tables(), old(self).p4_frame(), frame.number) is None,
            final(allocator).wf_allocator(),
            final(self).wf(),
            final(self).p4_frame() == old(self).p4_frame(),
            keeps_present(old(self).tables(), final(self).tables()),
            r is Ok && existing_path_distinct(old(self).tables(), old(self).p4_frame(), frame.number) ==> {
                &&& walk_tables(final(self).tables(), final(self).p4_frame(), frame.number) is Some
                &&& entry_at(
                    final(self).tables(),
                    level1_table(final(self).tables(), final(self).p4_frame(), frame.number),
                    table_index(frame.number, 1),
                ) == entry_value(frame.number, flags@ | PRESENT)
            },
            forall|q: u64|
                #[trigger] translation(old(self).tables(), old(self).p4_frame(), q) is Some ==> translation(
                    final(self).tables(),
                    final(self).p4_frame(),
                    q,
                ) == translation(old(self).tables(), old(self).p4_frame(), q),
            r is Ok && existing_path_distinct(old(self).tables(), old(self).p4_frame(), frame.number)
                ==> translation(final(self).tables(), final(self).p4_frame(), frame.number) == Some(
                frame.number,
            ),
            layered(old(self).tables(), old(self).p4_frame()) ==> layered(final(self).tables(), final(self).p4_frame()),
            r is Ok && layered(old(self).tables(), old(self).p4_frame()) ==> translation(
                final(self).tables(),
                final(self).p4_frame(),
                frame.number,
            ) == Some(frame.number),
            layered(old(self).tables(), old(self).p4_frame()) ==> forall|q: u64|
                (walk_tables(final(self).tables(), final(self).p4_frame(), q) is Some ==> leaf_slot(
                    final(self).tables(),
                    final(self).p4_frame(),
                    q,
                ) != leaf_slot(final(self).tables(), final(self).p4_frame(), frame.number)) ==> #[trigger] translation(
                    final(self).tables(),
                    final(self).p4_frame(),
                    q,
                ) == translation(old(self).tables(), old(self).p4_frame(), q),
            walk_tables(old(self).tables(), old(self).p4_frame(), frame.number) is Some ==> {
                &&& r is Ok
                &&& final(self).tables() == old(self).tables().insert(
                    level1_table(old(self).tables(), old(self).p4_frame(), frame.number),
                    table_at(
                        old(self).tables(),
                        level1_table(old(self).tables(), old(self).p4_frame(), frame.number),
                    ).update(table_index(frame.number, 1) as int, entry_value(frame.number, flags@ | PRESENT)),
                )
            },
    {
        let page = Page::containing_address(frame.start_address());
        self.map_to(page, frame, flags, allocator)
    }

    /// Same method as above but does not crash if the page was already mapped
    pub fn identity_map_if_unmapped<A: FrameAllocator>(&mut self, frame: Frame, flags: EntryFlags, allocator: &mut A) -> (r: Result<(), &'static str>)
        requires
            old(allocator).wf_allocator(),
            old(self).wf(),
            frame.number < FRAME_NUMBER_LIMIT,
            is_canonical((frame.number * PAGE_SIZE) as u64),
            no_huge_on_path(old(self).tables(), old(self).p4_frame(), frame.number),
        ensures
            table_frames_ready(old(self).tables(), old(self).p4_frame(), frame.number, *old(allocator), 0) ==> r is Ok,
            final(allocator).wf_allocator(),
            final(self).wf(),
            final(self).p4_frame() == old(self).p4_frame(),
            !leaf_unused(old(self).tables(), old(self).p4_frame(), frame.number) ==> {
                &&& r is Ok
                &&& final(self).tables() == old(self).tables()
            },
            r is Ok && leaf_unused(old(self).tables(), old(self).p4_frame(), frame.number)
                && existing_path_distinct(old(self).tables(), old(self).p4_frame(), frame.number)
                ==> translation(final(self).tables(), final(self).p4_frame(), frame.number) == Some(
                frame.number,
            ),
            layered(old(self).tables(), old(self).p4_frame()) ==> layered(final(self).tables(), final(self).p4_frame()),
            r is Ok && leaf_unused(old(self).tables(), old(self).p4_frame(), frame.number) && layered(
                old(self).tables(),
                old(self).p4_frame(),
            ) ==> translation(final(self).tables(), final(self).p4_frame(), frame.number) == Some(frame.number),
    {
        let page = Page::containing_address(frame.start_address());
        let unmapped = match self.check_is_unmapped(page, allocator) {
            Ok(b) => b,
            Err(e) => {
                return Err(e);
            },
        };
        if unmapped {
            self.map_to(page, frame, flags, allocator)
        } else {
            Ok(())
        }
    }

    /// Unmaps the given page and adds all freed frames to the given
    /// `FrameAllocator`.
    pub fn unmap<A: FrameAllocator>(&mut self, page: Page, allocator: &mut A) -> (r: Result<(), &'static str>)
        requires
            old(allocator).wf_allocator(),
            old(self).wf(),
            walk_4k(old(self).tables(), old(self).p4_frame(), page.number) is Some,
        ensures
            final(allocator).wf_allocator(),
            final(self).wf(),
            final(self).p4_frame() == old(self).p4_frame(),
            forall|q: u64|
                #[trigger] translation(old(self).tables(), old(self).p4_frame(), q) is None ==> translation(
                    final(self).tables(),
                    final(self).p4_frame(),
                    q,
                ) is None,
            final(self).tables() == old(self).tables().insert(
                level1_table(old(self).tables(), old(self).p4_frame(), page.number),
                table_at(
                    old(self).tables(),
                    level1_table(old(self).tables(), old(self).p4_frame(), page.number),
                ).update(table_index(page.number, 1) as int, 0),
            ),
            translation(final(self).tables(), final(self).p4_frame(), page.number) is None,
            layered(old(self).tables(), old(self).p4_frame()) ==> layered(final(self).tables(), final(self).p4_frame()),
            r is Ok <==> old(allocator).frame_release(
                Frame { number: walk_4k(old(self).tables(), old(self).p4_frame(), page.number)->0 },
            ) is Ok,
    {
        let frame = self.unmap_no_dealloc(&page);
        // tables left empty are kept
        match frame {
            Some(frame) => match allocator.deallocate_frame(frame) {
                Ok(()) => Ok(()),
                Err(_) => Err("could not deallocate"),
            },
            None => Err("could not deallocate"),
        }
    }

    /// Clears the level-1 entry of `page` and returns the frame it pointed to. Invalidating
    /// the page's TLB entry is left to the caller.
    pub fn unmap_no_dealloc(&mut self, page: &Page) -> (r: Option<Frame>)
        requires
            old(self).wf(),
            walk_tables(old(self).tables(), old(self).p4_frame(), page.number) is Some,
            translation(old(self).tables(), old(self).p4_frame(), page.number) is Some,
        ensures
            final(self).wf(),
            final(self).p4_frame() == old(self).p4_frame(),
            final(self).tables() == old(self).tables().insert(
                level1_table(old(self).tables(), old(self).p4_frame(), page.number),
                table_at(
                    old(self).tables(),
                    level1_table(old(self).tables(), old(self).p4_frame(), page.number),
                ).update(table_index(page.number, 1) as int, 0),
            ),
            match walk_4k(old(self).tables(), old(self).p4_frame(), page.number) {
                Some(f) => r == Some(Frame { number: f }),
                None => r is None,
            },
            translation(final(self).tables(), final(self).p4_frame(), page.number) is None,
            keeps_present(final(self).tables(), old(self).tables()),
            forall|q: u64|
                #[trigger] translation(old(self).tables(), old(self).p4_frame(), q) is None ==> translation(
                    final(self).tables(),
                    final(self).p4_frame(),
                    q,
                ) is None,
            layered(old(self).tables(), old(self).p4_frame()) ==> layered(final(self).tables(), final(self).p4_frame()),
    {
        let ghost mem0 = self.tables();
        let ghost p4 = self.p4.number;
        let ghost n = page.number;
        let i4 = page.p4_index();
        let i3 = page.p3_index();
        let i2 = page.p2_index();
        let i1 = page.p1_index();
        let p3 = self.next_table(self.p4.number, i4).unwrap();
        let p2 = self.next_table(p3, i3).unwrap();
        let p1 = self.next_table(p2, i2).unwrap();
        let mut entry = self.read_entry(p1, i1);
        let frame = entry.pointed_frame();
        entry.set_unused();
        self.write_entry(p1, i1, entry);
        proof {
            let mem1 = self.tables();
            lemma_unused_entry_has_no_flags();
            lemma_next_table_in_memory(mem0, p2, i2);
            if entry_at(mem1, p4, i4) != entry_at(mem0, p4, i4) {
                assert(next_table_of(mem1, p4, i4) is None);
            } else if entry_at(mem1, p3, i3) != entry_at(mem0, p3, i3) {
                assert(next_table_of(mem1, p3, i3) is None);
                assert(entry_at(mem1, p3, i3) == 0);
            } else if entry_at(mem1, p2, i2) != entry_at(mem0, p2, i2) {
                assert(entry_at(mem1, p2, i2) == 0);
            } else {
                assert(walk_tables(mem1, p4, n) == Some((p3, p2, p1)));
            }
            assert forall|f: u64, i: usize| i < ENTRY_COUNT && #[trigger] entry_at(mem1, f, i) & PRESENT != 0 implies entry_at(
                mem0,
                f,
                i,
            ) == entry_at(mem1, f, i) by {
                if f == p1 && i == i1 {
                    assert(entry_at(mem1, f, i) == 0);
                }
            }
            assert forall|q: u64| #[trigger] translation(mem0, p4, q) is None implies translation(mem1, p4, q) is None by {
                lemma_unmapped_stays_unmapped(mem0, mem1, p4, q);
            }
            if layered(mem0, p4) {
                assert(table_at(mem0, p1).len() == ENTRY_COUNT);
                lemma_clear_leaf_keeps_layers(mem0, p4, n);
            }
        }
        frame
    }

    /// Walks to the level-1 table for `page`, creating missing tables on the way, and tells
    /// whether its entry for `page` is unused.
    fn check_is_unmapped<A: FrameAllocator>(&mut self, page: Page, allocator: &mut A) -> (r: Result<bool, &'static str>)
        requires
            old(allocator).wf_allocator(),
            old(self).wf(),
            no_huge_on_path(old(self).tables(), old(self).p4_frame(), page.number),
        ensures
            final(allocator).wf_allocator(),
            final(self).wf(),
            final(self).p4_frame() == old(self).p4_frame(),
            walk_tables(old(self).tables(), old(self).p4_frame(), page.number) is Some ==> {
                &&& r == Ok::<bool, &'static str>(leaf_unused(old(self).tables(), old(self).p4_frame(), page.number))
                &&& final(self).tables() == old(self).tables()
            },
            r matches Ok(unmapped) ==> {
                &&& walk_tables(final(self).tables(), final(self).p4_frame(), page.number) is Some
                &&& unmapped == leaf_unused(final(self).tables(), final(self).p4_frame(), page.number)
                &&& leaf_unused(old(self).tables(), old(self).p4_frame(), page.number) ==> unmapped
                &&& existing_path_distinct(old(self).tables(), old(self).p4_frame(), page.number)
                    ==> existing_path_distinct(final(self).tables(), final(self).p4_frame(), page.number)
            },
            layered(old(self).tables(), old(self).p4_frame()) ==> layered(final(self).tables(), final(self).p4_frame()),
            table_frames_ready(old(self).tables(), old(self).p4_frame(), page.number, *old(allocator), 0) ==> r is Ok,
    {
        let p1 = match self.create_path(page, allocator) {
            Ok(t) => t,
            Err(e) => {
                return Err(e);
            },
        };
        Ok(self.read_entry(p1, page.p1_index()).is_unused())
    }

    /// Whether frame `frame` holds one of the page tables.
    pub fn holds_table(&self, frame: Frame) -> (r: bool)
        ensures
            r == self.tables().contains_key(frame.number),
    {
        proof {
            lemma_keys_ordered();
        }
        self.memory.contains_key(&frame.number)
    }

    /// Stores `table` in frame `frame`, as a write through any mapping of that frame does.
    pub fn write_table(&mut self, frame: Frame, table: Table)
        requires
            old(self).wf(),
            table.wf(),
        ensures
            final(self).wf(),
            final(self).p4_frame() == old(self).p4_frame(),
            final(self).tables() == old(self).tables().insert(frame.number, table@),
    {
        proof {
            lemma_keys_ordered();
        }
        self.memory.insert(frame.number, table);
        proof {
            assert(self.tables() =~= old(self).tables().insert(frame.number, table@));
        }
    }
}

} // verus!
