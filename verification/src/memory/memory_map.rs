use vstd::prelude::*;

verus! {

/// The type of a memory map entry that the kernel may use freely.
pub const USABLE: u64 = 0;

pub const RESERVED: u64 = 1;

pub const ACPI_RECLAIMABLE: u64 = 2;

pub const ACPI_NVS: u64 = 3;

pub const BAD_MEMORY: u64 = 4;

pub const BOOTLOADER_RECLAIMABLE: u64 = 5;

/// The type of the entries holding the kernel and its modules.
pub const KERNEL_AND_MODULES: u64 = 6;

pub const FRAMEBUFFER: u64 = 7;

/// The name under which the memory map listing shows entries of type `entry_type`; none for a
/// type that it does not show.
pub open spec fn type_label(entry_type: u64) -> Option<Seq<char>> {
    if entry_type == USABLE {
        Some("usable"@)
    } else if entry_type == RESERVED {
        Some("reserved"@)
    } else if entry_type == ACPI_RECLAIMABLE {
        Some("acpi reclaimable"@)
    } else if entry_type == ACPI_NVS {
        Some("acpi nvs"@)
    } else if entry_type == BAD_MEMORY {
        Some("bad memory"@)
    } else if entry_type == BOOTLOADER_RECLAIMABLE {
        Some("bootloader reclaimable"@)
    } else if entry_type == KERNEL_AND_MODULES {
        Some("kernel"@)
    } else if entry_type == FRAMEBUFFER {
        Some("framebuffer"@)
    } else {
        None
    }
}

/// The name under which the memory map listing shows entries of type `entry_type`.
pub fn entry_type_label(entry_type: u64) -> (r: Option<&'static str>)
    ensures
        match r {
            Some(label) => type_label(entry_type) == Some(label@),
            None => type_label(entry_type) is None,
        },
        entry_type == USABLE ==> (r matches Some(l) && l@ == "usable"@),
        entry_type == RESERVED ==> (r matches Some(l) && l@ == "reserved"@),
        entry_type == ACPI_RECLAIMABLE ==> (r matches Some(l) && l@ == "acpi reclaimable"@),
        entry_type == ACPI_NVS ==> (r matches Some(l) && l@ == "acpi nvs"@),
        entry_type == BAD_MEMORY ==> (r matches Some(l) && l@ == "bad memory"@),
        entry_type == BOOTLOADER_RECLAIMABLE ==> (r matches Some(l) && l@ == "bootloader reclaimable"@),
        entry_type == KERNEL_AND_MODULES ==> (r matches Some(l) && l@ == "kernel"@),
        entry_type == FRAMEBUFFER ==> (r matches Some(l) && l@ == "framebuffer"@),
        entry_type > FRAMEBUFFER ==> r is None,
{
    if entry_type == USABLE {
        Some("usable")
    } else if entry_type == RESERVED {
        Some("reserved")
    } else if entry_type == ACPI_RECLAIMABLE {
        Some("acpi reclaimable")
    } else if entry_type == ACPI_NVS {
        Some("acpi nvs")
    } else if entry_type == BAD_MEMORY {
        Some("bad memory")
    } else if entry_type == BOOTLOADER_RECLAIMABLE {
        Some("bootloader reclaimable")
    } else if entry_type == KERNEL_AND_MODULES {
        Some("kernel")
    } else if entry_type == FRAMEBUFFER {
        Some("framebuffer")
    } else {
        None
    }
}

/// One entry of the memory map handed over by the bootloader: `length` bytes of physical
/// memory starting at `base`, of the given type.
#[derive(Copy, Clone, Debug, PartialEq, Eq, Structural)]
pub struct MemoryMapEntry {
    pub base: u64,
    pub length: u64,
    pub entry_type: u64,
}

impl MemoryMapEntry {
    /// The entry is not empty and the address just past its end is representable.
    pub open spec fn has_last_byte(&self) -> bool {
        1 <= self.length && self.base + self.length <= u64::MAX
    }

    /// The address of the last byte of the entry.
    pub open spec fn last_byte(&self) -> u64 {
        (self.base + self.length - 1) as u64
    }
}

/// The usable entries of `map`, in their order.
pub open spec fn usable_entries(map: Seq<MemoryMapEntry>) -> Seq<MemoryMapEntry>
    decreases map.len(),
{
    if map.len() == 0 {
        Seq::empty()
    } else {
        let before = usable_entries(map.drop_last());
        if map.last().entry_type == USABLE {
            before.push(map.last())
        } else {
            before
        }
    }
}

/// The usable entries of `map` are exactly its entries of the usable type: an entry is
/// among them if and only if it is in `map` and usable, and there are no more of them than
/// entries in `map`.
pub proof fn lemma_usable_entries_members(map: Seq<MemoryMapEntry>)
    ensures
        forall|x: MemoryMapEntry|
            #[trigger] usable_entries(map).contains(x) <==> (map.contains(x) && x.entry_type
                == USABLE),
        usable_entries(map).len() <= map.len(),
    decreases map.len(),
{
    if map.len() > 0 {
        let rest = map.drop_last();
        let before = usable_entries(rest);
        lemma_usable_entries_members(rest);
        assert(map == rest.push(map.last()));
        assert forall|x: MemoryMapEntry| #[trigger] usable_entries(map).contains(x) <==> (map.contains(
            x,
        ) && x.entry_type == USABLE) by {
            assert(map.contains(x) <==> (rest.contains(x) || x == map.last())) by {
                if map.contains(x) {
                    let j = choose|j: int| 0 <= j < map.len() && map[j] == x;
                    if j < rest.len() {
                        assert(rest[j] == x);
                    }
                }
                if rest.contains(x) {
                    let j = choose|j: int| 0 <= j < rest.len() && rest[j] == x;
                    assert(map[j] == x);
                }
                if x == map.last() {
                    assert(map[map.len() - 1] == x);
                }
            }
            if map.last().entry_type == USABLE {
                let after = before.push(map.last());
                assert(after.contains(x) <==> (before.contains(x) || x == map.last())) by {
                    if after.contains(x) {
                        let j = choose|j: int| 0 <= j < after.len() && after[j] == x;
                        if j < before.len() {
                            assert(before[j] == x);
                        }
                    }
                    if before.contains(x) {
                        let j = choose|j: int| 0 <= j < before.len() && before[j] == x;
                        assert(after[j] == x);
                    }
                    if x == map.last() {
                        assert(after[after.len() - 1] == x);
                    }
                }
            }
        }
    }
}

/// The usable entries of a prefix of `map` are a prefix of those of `map`.
pub proof fn lemma_usable_entries_prefix(map: Seq<MemoryMapEntry>, i: int)
    requires
        0 <= i <= map.len(),
    ensures
        usable_entries(map.take(i)).len() <= usable_entries(map).len(),
        usable_entries(map.take(i)) =~= usable_entries(map).take(usable_entries(map.take(i)).len() as int),
    decreases map.len(),
{
    if i == map.len() {
        assert(map.take(i) =~= map);
    } else {
        lemma_usable_entries_prefix(map.drop_last(), i);
        assert(map.drop_last().take(i) =~= map.take(i));
    }
}

/// Appending an entry to a map appends it to the usable entries when it is usable.
pub proof fn lemma_usable_entries_step(map: Seq<MemoryMapEntry>, i: int)
    requires
        0 <= i < map.len(),
    ensures
        usable_entries(map.take(i + 1)) == if map[i].entry_type == USABLE {
            usable_entries(map.take(i)).push(map[i])
        } else {
            usable_entries(map.take(i))
        },
{
    assert(map.take(i + 1).drop_last() =~= map.take(i));
}

} // verus!
