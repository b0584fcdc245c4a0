//! The permission and status bits of a page-table entry.

use vstd::prelude::*;

verus! {

/// Bit 0, valid: the entry is usable at all.
pub const FLAG_V: u8 = 0x01;

/// Bit 1, readable.
pub const FLAG_R: u8 = 0x02;

/// Bit 2, writable.
pub const FLAG_W: u8 = 0x04;

/// Bit 3, executable.
pub const FLAG_X: u8 = 0x08;

/// Bit 4, accessible to user mode.
pub const FLAG_U: u8 = 0x10;

/// Bit 5, global.
pub const FLAG_G: u8 = 0x20;

/// Bit 6, accessed; the hardware sets it.
pub const FLAG_A: u8 = 0x40;

/// Bit 7, dirty; the hardware sets it.
pub const FLAG_D: u8 = 0x80;

/// A set of the eight flag bits of a page-table entry. Each bit is a flag of
/// its own and may be combined with any other, so every byte is a set.
#[derive(Copy, Clone, Debug, PartialEq, Eq, Structural)]
pub struct PTEFlags {
    pub bits: u8,
}

impl PTEFlags {
    /// Whether every flag of `other` is in this set.
    pub open spec fn has(self, other: PTEFlags) -> bool {
        self.bits & other.bits == other.bits
    }

    /// Valid: the entry is usable at all.
    #[allow(non_snake_case)]
    pub fn V() -> (r: Self)
        ensures
            r.bits == FLAG_V,
    {
        PTEFlags { bits: FLAG_V }
    }

    /// Readable.
    #[allow(non_snake_case)]
    pub fn R() -> (r: Self)
        ensures
            r.bits == FLAG_R,
    {
        PTEFlags { bits: FLAG_R }
    }

    /// Writable.
    #[allow(non_snake_case)]
    pub fn W() -> (r: Self)
        ensures
            r.bits == FLAG_W,
    {
        PTEFlags { bits: FLAG_W }
    }

    /// Executable.
    #[allow(non_snake_case)]
    pub fn X() -> (r: Self)
        ensures
            r.bits == FLAG_X,
    {
        PTEFlags { bits: FLAG_X }
    }

    /// Accessible to user mode.
    #[allow(non_snake_case)]
    pub fn U() -> (r: Self)
        ensures
            r.bits == FLAG_U,
    {
        PTEFlags { bits: FLAG_U }
    }

    /// Global.
    #[allow(non_snake_case)]
    pub fn G() -> (r: Self)
        ensures
            r.bits == FLAG_G,
    {
        PTEFlags { bits: FLAG_G }
    }

    /// Accessed.
    #[allow(non_snake_case)]
    pub fn A() -> (r: Self)
        ensures
            r.bits == FLAG_A,
    {
        PTEFlags { bits: FLAG_A }
    }

    /// Dirty.
    #[allow(non_snake_case)]
    pub fn D() -> (r: Self)
        ensures
            r.bits == FLAG_D,
    {
        PTEFlags { bits: FLAG_D }
    }

    /// The set with no flag.
    pub fn empty() -> (r: Self)
        ensures
            r.bits == 0,
    {
        PTEFlags { bits: 0 }
    }

    /// The byte that holds the flags.
    pub fn bits(&self) -> (r: u8)
        ensures
            r == self.bits,
    {
        self.bits
    }

    /// The set that a byte holds. All eight bits are flags, so there is a
    /// set for every byte.
    pub fn from_bits(bits: u8) -> (r: Option<Self>)
        ensures
            r == Some(PTEFlags { bits }),
    {
        Some(PTEFlags { bits })
    }

    /// Whether the set holds no flag.
    pub fn is_empty(&self) -> (r: bool)
        ensures
            r == (self.bits == 0),
    {
        self.bits == 0
    }

    /// Whether every flag of `other` is in this set.
    pub fn contains(&self, other: PTEFlags) -> (r: bool)
        ensures
            r == self.has(other),
    {
        self.bits & other.bits == other.bits
    }
}

impl core::ops::BitOr for PTEFlags {
    type Output = PTEFlags;

    /// The flags of either set.
    fn bitor(self, rhs: PTEFlags) -> (r: PTEFlags) {
        PTEFlags { bits: self.bits | rhs.bits }
    }
}

impl vstd::std_specs::ops::BitOrSpecImpl for PTEFlags {
    open spec fn obeys_bitor_spec() -> bool {
        true
    }

    open spec fn bitor_req(self, rhs: PTEFlags) -> bool {
        true
    }

    open spec fn bitor_spec(self, rhs: PTEFlags) -> PTEFlags {
        PTEFlags { bits: self.bits | rhs.bits }
    }
}

impl core::ops::BitAnd for PTEFlags {
    type Output = PTEFlags;

    /// The flags of both sets.
    fn bitand(self, rhs: PTEFlags) -> (r: PTEFlags) {
        PTEFlags { bits: self.bits & rhs.bits }
    }
}

impl vstd::std_specs::ops::BitAndSpecImpl for PTEFlags {
    open spec fn obeys_bitand_spec() -> bool {
        true
    }

    open spec fn bitand_req(self, rhs: PTEFlags) -> bool {
        true
    }

    open spec fn bitand_spec(self, rhs: PTEFlags) -> PTEFlags {
        PTEFlags { bits: self.bits & rhs.bits }
    }
}

} // verus!
