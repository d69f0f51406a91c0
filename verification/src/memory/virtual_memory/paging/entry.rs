use vstd::prelude::*;
use crate::memory::PAGE_SIZE;
use crate::memory::physical_memory::Frame;

verus! {

/// The bits of an entry that hold the physical address of the frame it points to.
pub const ADDRESS_MASK: u64 = 0x000fffff_fffff000;

/// Frames whose start address fits in `ADDRESS_MASK` have numbers below this bound.
pub const FRAME_NUMBER_LIMIT: u64 = 0x100_0000_0000;

pub const PRESENT: u64 = 1;

pub const WRITABLE: u64 = 2;

pub const USER_ACCESSIBLE: u64 = 4;

pub const WRITE_THROUGH: u64 = 8;

pub const NO_CACHE: u64 = 16;

pub const ACCESSED: u64 = 32;

pub const DIRTY: u64 = 64;

pub const HUGE_PAGE: u64 = 128;

pub const GLOBAL: u64 = 256;

pub const NO_EXECUTE: u64 = 0x8000_0000_0000_0000;

/// Every defined flag bit.
pub const ALL_FLAGS: u64 = 0x8000_0000_0000_01ff;

/// The number of the frame that an entry with raw value `e` points to, if it is present.
pub open spec fn entry_frame(e: u64) -> Option<u64> {
    if e & PRESENT != 0 {
        Some(((e & ADDRESS_MASK) / (PAGE_SIZE as u64)) as u64)
    } else {
        None
    }
}

/// Whether the entry with raw value `e` has the huge-page flag.
pub open spec fn entry_is_huge(e: u64) -> bool {
    e & HUGE_PAGE != 0
}

/// The raw value of an entry pointing to frame `number` with the given flag bits.
pub open spec fn entry_value(number: u64, flags: u64) -> u64 {
    ((number * PAGE_SIZE) as u64) | flags
}

/// A set of page-table entry flags.
#[derive(Copy, Clone, PartialEq, Eq, Structural)]
pub struct EntryFlags {
    bits: u64,
}

impl View for EntryFlags {
    type V = u64;

    /// The flag bits.
    closed spec fn view(&self) -> u64 {
        self.bits
    }
}

impl EntryFlags {
    /// Only defined flag bits are ever set.
    #[verifier::type_invariant]
    closed spec fn only_defined_bits(&self) -> bool {
        self.bits & ALL_FLAGS == self.bits
    }

    /// The flags whose bits are set in `bits`; undefined bits are dropped.
    pub fn from_bits_truncate(bits: u64) -> (r: EntryFlags)
        ensures
            r@ == bits & ALL_FLAGS,
    {
        proof {
            assert((bits & 0x8000_0000_0000_01ffu64) & 0x8000_0000_0000_01ffu64 == bits
                & 0x8000_0000_0000_01ffu64) by (bit_vector);
        }
        EntryFlags { bits: bits & ALL_FLAGS }
    }

    pub fn empty() -> (r: EntryFlags)
        ensures
            r@ == 0,
    {
        proof {
            assert(0u64 & 0x8000_0000_0000_01ffu64 == 0u64) by (bit_vector);
        }
        EntryFlags { bits: 0 }
    }

    pub fn bits(&self) -> (r: u64)
        ensures
            r == self@,
            r & ALL_FLAGS == r,
    {
        proof {
            use_type_invariant(self);
        }
        self.bits
    }

    /// Whether every flag of `other` is in `self`.
    pub fn contains(&self, other: EntryFlags) -> (r: bool)
        ensures
            r == (self@ & other@ == other@),
    {
        self.bits & other.bits == other.bits
    }

    /// The flags of `self` together with those of `other`.
    pub fn union(&self, other: EntryFlags) -> (r: EntryFlags)
        ensures
            r@ == self@ | other@,
    {
        proof {
            use_type_invariant(self);
            use_type_invariant(&other);
            let a = self.bits;
            let b = other.bits;
            assert((a | b) & 0x8000_0000_0000_01ffu64 == a | b) by (bit_vector)
                requires
                    a & 0x8000_0000_0000_01ffu64 == a,
                    b & 0x8000_0000_0000_01ffu64 == b,
            ;
        }
        EntryFlags { bits: self.bits | other.bits }
    }
}

/// A page-table entry: a frame address and flags packed in one word.
#[derive(Copy, Clone, PartialEq, Eq, Structural)]
pub struct Entry(pub u64);

impl Entry {
    pub fn is_unused(&self) -> (r: bool)
        ensures
            r == (self.0 == 0),
    {
        self.0 == 0
    }

    pub fn set_unused(&mut self)
        ensures
            final(self).0 == 0,
    {
        self.0 = 0;
    }

    pub fn flags(&self) -> (r: EntryFlags)
        ensures
            r@ == self.0 & ALL_FLAGS,
    {
        EntryFlags::from_bits_truncate(self.0)
    }

    pub fn pointed_frame(&self) -> (r: Option<Frame>)
        ensures
            r matches Some(f) ==> entry_frame(self.0) == Some(f.number),
            r is None ==> entry_frame(self.0) is None,
    {
        let flags = self.flags();
        let present = EntryFlags::from_bits_truncate(PRESENT);
        proof {
            let v = self.0;
            assert((v & 0x8000_0000_0000_01ffu64) & (1u64 & 0x8000_0000_0000_01ffu64) == (1u64
                & 0x8000_0000_0000_01ffu64) <==> v & 1u64 != 0) by (bit_vector);
        }
        if flags.contains(present) {
            Some(Frame::containing_address(self.0 & ADDRESS_MASK))
        } else {
            None
        }
    }

    /// Points the entry at `frame` with the given flags.
    pub fn set(&mut self, frame: Frame, flags: EntryFlags)
        requires
            frame.number < FRAME_NUMBER_LIMIT,
        ensures
            final(self).0 == entry_value(frame.number, flags@),
    {
        let start = frame.start_address();
        proof {
            let n = frame.number;
            assert(((n * 4096u64) as u64) & !0x000fffff_fffff000u64 == 0u64) by (bit_vector)
                requires
                    n < 0x100_0000_0000u64,
            ;
        }
        self.0 = start | flags.bits();
    }
}

} // verus!
