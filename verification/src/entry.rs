//! One 64-bit slot of a page table.
//!
//! | bits    | 63 .. 54 | 53 .. 10             | 9 .. 8 | 7 | 6 | 5 | 4 | 3 | 2 | 1 | 0 |
//! |---------|----------|----------------------|--------|---|---|---|---|---|---|---|---|
//! | meaning | reserved | physical page number | RSW    | D | A | G | U | X | W | R | V |
//!
//! An entry carries no mark that tells a leaf from a pointer to the next
//! table: only the depth of the walk does.

use vstd::prelude::*;
use crate::address::{PhysPageNum, PPN_MASK};
use crate::flags::PTEFlags;

verus! {

/// A page-table entry: a physical page number and a set of flags in one
/// word. The word of all zeros is the empty entry, which maps nothing.
#[derive(Copy, Clone, Debug, PartialEq, Eq, Structural)]
pub struct PageTableEntry {
    pub bits: u64,
}

impl PageTableEntry {
    /// The entry that `new` packs.
    pub open spec fn pack(ppn: PhysPageNum, flags: PTEFlags) -> PageTableEntry {
        PageTableEntry { bits: ppn.0 << 10 | flags.bits as u64 }
    }

    /// The page number in bits 10 to 53.
    pub open spec fn page(self) -> PhysPageNum {
        PhysPageNum((self.bits >> 10) & PPN_MASK)
    }

    /// The flags in bits 0 to 7.
    pub open spec fn flag_set(self) -> PTEFlags {
        PTEFlags { bits: (self.bits & 0xff) as u8 }
    }

    /// Whether bit 0, the valid flag, is set.
    pub open spec fn valid(self) -> bool {
        self.bits & 1 == 1
    }

    /// Packs a page number and flags into an entry. Nothing is added: an
    /// entry that is to be usable needs the valid flag among `flags`.
    pub fn new(ppn: PhysPageNum, flags: PTEFlags) -> (r: Self)
        ensures
            r == Self::pack(ppn, flags),
    {
        PageTableEntry { bits: ppn.0 << 10 | flags.bits as u64 }
    }

    /// The empty entry.
    pub fn empty() -> (r: Self)
        ensures
            r.bits == 0,
            !r.valid(),
    {
        proof {
            lemma_valid_bit(PhysPageNum(0), PTEFlags { bits: 0 });
        }
        PageTableEntry { bits: 0 }
    }

    /// The physical page number of the entry.
    pub fn ppn(&self) -> (r: PhysPageNum)
        ensures
            r == self.page(),
            r.0 < 0x0000_1000_0000_0000,
    {
        let b: u64 = self.bits;
        assert((b >> 10) & 0x0000_0fff_ffff_ffff < 0x0000_1000_0000_0000) by (bit_vector);
        PhysPageNum((self.bits >> 10) & PPN_MASK)
    }

    /// The flags of the entry.
    pub fn flags(&self) -> (r: PTEFlags)
        ensures
            r == self.flag_set(),
    {
        let b: u64 = self.bits;
        assert(b & 0xff < 0x100) by (bit_vector);
        let low: u8 = (self.bits & 0xff) as u8;
        PTEFlags { bits: low }
    }

    /// Whether the valid flag is set.
    pub fn is_valid(&self) -> (r: bool)
        ensures
            r == self.valid(),
            r == self.flag_set().has(PTEFlags { bits: 1 }),
    {
        let b: u64 = self.bits;
        assert(((b & 0xff) as u8) & 1u8 == 1u8 <==> b & 1 == 1) by (bit_vector);
        self.bits & 1 == 1
    }
}

/// Packing and unpacking agree: an entry made of a page number of at most 44
/// bits and any flags gives both back, and it is valid exactly when the
/// valid flag is among the flags.
pub proof fn lemma_entry_round_trip(ppn: PhysPageNum, flags: PTEFlags)
    requires
        ppn.0 < 0x0000_1000_0000_0000,
    ensures
        PageTableEntry::pack(ppn, flags).page() == ppn,
        PageTableEntry::pack(ppn, flags).flag_set() == flags,
        PageTableEntry::pack(ppn, flags).valid() == flags.has(PTEFlags { bits: 1 }),
{
    let p: u64 = ppn.0;
    let f: u8 = flags.bits;
    assert(p < 0x0000_1000_0000_0000 ==> ((p << 10 | f as u64) >> 10) & 0x0000_0fff_ffff_ffff == p
        && ((p << 10 | f as u64) & 0xff) as u8 == f && ((p << 10 | f as u64) & 1 == 1 <==> f & 1u8
        == 1u8)) by (bit_vector);
}

/// The empty entry is not valid, and an entry packed with the valid flag
/// among its flags is, whatever its page number.
pub proof fn lemma_valid_bit(ppn: PhysPageNum, flags: PTEFlags)
    ensures
        !(PageTableEntry { bits: 0 }).valid(),
        PageTableEntry::pack(ppn, PTEFlags { bits: flags.bits | 1 }).valid(),
{
    let p: u64 = ppn.0;
    let f: u8 = flags.bits;
    assert(0u64 & 1 == 0 && (p << 10 | (f | 1u8) as u64) & 1 == 1) by (bit_vector);
}

} // verus!
