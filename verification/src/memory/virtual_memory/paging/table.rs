use vstd::prelude::*;
use super::entry::Entry;
use super::ENTRY_COUNT;

verus! {

/// A page table: `ENTRY_COUNT` entries.
pub struct Table {
    entries: Vec<Entry>,
}

impl View for Table {
    type V = Seq<u64>;

    closed spec fn view(&self) -> Seq<u64> {
        self.entries@.map_values(|e: Entry| e.0)
    }
}

impl Table {
    pub open spec fn wf(&self) -> bool {
        self@.len() == ENTRY_COUNT
    }

    /// A table whose entries are all unused.
    pub fn new() -> (r: Table)
        ensures
            r.wf(),
            r@ == Seq::new(ENTRY_COUNT as nat, |i: int| 0u64),
    {
        let mut entries: Vec<Entry> = Vec::new();
        while entries.len() < ENTRY_COUNT
            invariant
                entries@.len() <= ENTRY_COUNT,
                forall|i: int| 0 <= i < entries@.len() ==> entries@[i].0 == 0,
            decreases ENTRY_COUNT - entries@.len(),
        {
            entries.push(Entry(0));
        }
        let r = Table { entries };
        assert(r@ =~= Seq::new(ENTRY_COUNT as nat, |i: int| 0u64));
        r
    }

    /// Marks every entry unused.
    pub fn zero(&mut self)
        requires
            old(self).wf(),
        ensures
            final(self).wf(),
            final(self)@ == Seq::new(ENTRY_COUNT as nat, |i: int| 0u64),
    {
        let mut i: usize = 0;
        while i < self.entries.len()
            invariant
                self.entries@.len() == ENTRY_COUNT,
                i <= ENTRY_COUNT,
                forall|j: int| 0 <= j < i ==> self.entries@[j].0 == 0,
            decreases ENTRY_COUNT - i,
        {
            self.entries[i].set_unused();
            i = i + 1;
        }
        assert(self@ =~= Seq::new(ENTRY_COUNT as nat, |i: int| 0u64));
    }

    /// The entry at `index`.
    pub fn entry(&self, index: usize) -> (r: Entry)
        requires
            self.wf(),
            index < ENTRY_COUNT,
        ensures
            r.0 == self@[index as int],
    {
        self.entries[index]
    }

    /// Replaces the entry at `index`.
    pub fn set_entry(&mut self, index: usize, entry: Entry)
        requires
            old(self).wf(),
            index < ENTRY_COUNT,
        ensures
            final(self).wf(),
            final(self)@ == old(self)@.update(index as int, entry.0),
    {
        self.entries.set(index, entry);
        assert(self@ =~= old(self)@.update(index as int, entry.0));
    }
}

} // verus!
