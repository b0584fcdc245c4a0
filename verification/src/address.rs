//! Physical and virtual addresses and page numbers.
//!
//! Four wrapped words, each with a hardware-mandated width:
//!
//! | type          | width |
//! |---------------|-------|
//! | `PhysAddr`    | 56    |
//! | `VirtAddr`    | 39    |
//! | `PhysPageNum` | 44    |
//! | `VirtPageNum` | 27    |
//!
//! Building one from a raw word keeps the low bits of that width and drops
//! the rest. The fields are public, so a value built with the tuple
//! constructor may be wider; every operation here is defined on such a value
//! too.

use vstd::prelude::*;
use vstd::std_specs::convert::FromSpec;

verus! {

/// Size of a page in bytes.
pub const PAGE_SIZE: u64 = 0x1000;

/// Number of bits of the offset inside a page.
pub const PAGE_SIZE_BITS: u64 = 12;

/// Width of a physical address.
pub const PA_WIDTH_SV39: u64 = 56;

/// Width of a virtual address.
pub const VA_WIDTH_SV39: u64 = 39;

/// Width of a physical page number.
pub const PPN_WIDTH_SV39: u64 = 44;

/// Width of a virtual page number.
pub const VPN_WIDTH_SV39: u64 = 27;

/// The low 56 bits.
pub const PA_MASK: u64 = 0x00ff_ffff_ffff_ffff;

/// The low 39 bits.
pub const VA_MASK: u64 = 0x0000_007f_ffff_ffff;

/// The low 44 bits.
pub const PPN_MASK: u64 = 0x0000_0fff_ffff_ffff;

/// The low 27 bits.
pub const VPN_MASK: u64 = 0x0000_0000_07ff_ffff;

/// Bit 38, the sign bit of a virtual address.
pub const VA_SIGN_BIT: u64 = 0x0000_0040_0000_0000;

/// Bits 39 to 63, which a canonical virtual address fills with its bit 38.
pub const VA_HIGH_BITS: u64 = 0xffff_ff80_0000_0000;

/// A physical address.
///
/// | bits    | 55 .. 12             | 11 .. 0     |
/// |---------|----------------------|-------------|
/// | meaning | physical page number | page offset |
#[derive(Copy, Clone, Debug, PartialEq, Eq, PartialOrd, Ord, Structural)]
pub struct PhysAddr(pub u64);

/// A virtual address.
///
/// | bits    | 38 .. 12            | 11 .. 0     |
/// |---------|---------------------|-------------|
/// | meaning | virtual page number | page offset |
#[derive(Copy, Clone, Debug, PartialEq, Eq, PartialOrd, Ord, Structural)]
pub struct VirtAddr(pub u64);

/// A physical page number.
#[derive(Copy, Clone, Debug, PartialEq, Eq, PartialOrd, Ord, Structural)]
pub struct PhysPageNum(pub u64);

/// A virtual page number: three fields of nine bits, one for each level of
/// the table walk, the most significant first.
#[derive(Copy, Clone, Debug, PartialEq, Eq, PartialOrd, Ord, Structural)]
pub struct VirtPageNum(pub u64);

/// The word that a virtual address widens to: bits 39 to 63 repeat bit 38.
pub open spec fn sign_extend(v: u64) -> u64 {
    if v >= VA_SIGN_BIT {
        v | VA_HIGH_BITS
    } else {
        v
    }
}

/// The number of pages that `v` bytes need.
pub open spec fn pages_up(v: u64) -> int {
    (v + PAGE_SIZE - 1) / (PAGE_SIZE as int)
}

impl From<u64> for PhysAddr {
    /// Keeps the low 56 bits.
    fn from(v: u64) -> (r: Self) {
        Self(v & PA_MASK)
    }
}

impl vstd::std_specs::convert::FromSpecImpl<u64> for PhysAddr {
    open spec fn obeys_from_spec() -> bool {
        true
    }

    open spec fn from_spec(v: u64) -> Self {
        PhysAddr(v & PA_MASK)
    }
}

impl From<u64> for PhysPageNum {
    /// Keeps the low 44 bits.
    fn from(v: u64) -> (r: Self) {
        Self(v & PPN_MASK)
    }
}

impl vstd::std_specs::convert::FromSpecImpl<u64> for PhysPageNum {
    open spec fn obeys_from_spec() -> bool {
        true
    }

    open spec fn from_spec(v: u64) -> Self {
        PhysPageNum(v & PPN_MASK)
    }
}

impl From<u64> for VirtAddr {
    /// Keeps the low 39 bits.
    fn from(v: u64) -> (r: Self) {
        Self(v & VA_MASK)
    }
}

impl vstd::std_specs::convert::FromSpecImpl<u64> for VirtAddr {
    open spec fn obeys_from_spec() -> bool {
        true
    }

    open spec fn from_spec(v: u64) -> Self {
        VirtAddr(v & VA_MASK)
    }
}

impl From<u64> for VirtPageNum {
    /// Keeps the low 27 bits.
    fn from(v: u64) -> (r: Self) {
        Self(v & VPN_MASK)
    }
}

impl vstd::std_specs::convert::FromSpecImpl<u64> for VirtPageNum {
    open spec fn obeys_from_spec() -> bool {
        true
    }

    open spec fn from_spec(v: u64) -> Self {
        VirtPageNum(v & VPN_MASK)
    }
}

impl From<PhysAddr> for u64 {
    fn from(v: PhysAddr) -> (r: Self) {
        v.0
    }
}

impl vstd::std_specs::convert::FromSpecImpl<PhysAddr> for u64 {
    open spec fn obeys_from_spec() -> bool {
        true
    }

    open spec fn from_spec(v: PhysAddr) -> Self {
        v.0
    }
}

impl From<PhysPageNum> for u64 {
    fn from(v: PhysPageNum) -> (r: Self) {
        v.0
    }
}

impl vstd::std_specs::convert::FromSpecImpl<PhysPageNum> for u64 {
    open spec fn obeys_from_spec() -> bool {
        true
    }

    open spec fn from_spec(v: PhysPageNum) -> Self {
        v.0
    }
}

impl From<VirtAddr> for u64 {
    /// Widens to a canonical address: a value below bit 38 stays as it is,
    /// any other gets every bit from 39 up set.
    fn from(v: VirtAddr) -> (r: Self) {
        if v.0 >= VA_SIGN_BIT {
            v.0 | VA_HIGH_BITS
        } else {
            v.0
        }
    }
}

impl vstd::std_specs::convert::FromSpecImpl<VirtAddr> for u64 {
    open spec fn obeys_from_spec() -> bool {
        true
    }

    open spec fn from_spec(v: VirtAddr) -> Self {
        sign_extend(v.0)
    }
}

impl From<VirtPageNum> for u64 {
    fn from(v: VirtPageNum) -> (r: Self) {
        v.0
    }
}

impl vstd::std_specs::convert::FromSpecImpl<VirtPageNum> for u64 {
    open spec fn obeys_from_spec() -> bool {
        true
    }

    open spec fn from_spec(v: VirtPageNum) -> Self {
        v.0
    }
}

impl From<VirtPageNum> for VirtAddr {
    /// The address of the page's first byte.
    fn from(v: VirtPageNum) -> (r: Self) {
        Self(v.0 << PAGE_SIZE_BITS)
    }
}

impl vstd::std_specs::convert::FromSpecImpl<VirtPageNum> for VirtAddr {
    open spec fn obeys_from_spec() -> bool {
        true
    }

    open spec fn from_spec(v: VirtPageNum) -> Self {
        VirtAddr(v.0 << PAGE_SIZE_BITS)
    }
}

impl From<PhysPageNum> for PhysAddr {
    /// The address of the page's first byte.
    fn from(v: PhysPageNum) -> (r: Self) {
        Self(v.0 << PAGE_SIZE_BITS)
    }
}

impl vstd::std_specs::convert::FromSpecImpl<PhysPageNum> for PhysAddr {
    open spec fn obeys_from_spec() -> bool {
        true
    }

    open spec fn from_spec(v: PhysPageNum) -> Self {
        PhysAddr(v.0 << PAGE_SIZE_BITS)
    }
}

impl VirtAddr {
    /// Whether the address is the first byte of a page.
    pub open spec fn is_aligned(self) -> bool {
        self.0 % PAGE_SIZE == 0
    }

    /// The number of the page that holds this address.
    pub fn floor(&self) -> (r: VirtPageNum)
        ensures
            r.0 == self.0 / PAGE_SIZE,
    {
        VirtPageNum(self.0 / PAGE_SIZE)
    }

    /// The number of the first page that starts at or after this address.
    ///
    /// Address zero is a legal input and gives page zero; no input wraps
    /// around.
    pub fn ceil(&self) -> (r: VirtPageNum)
        ensures
            r.0 == pages_up(self.0),
            self.is_aligned() ==> r.0 == self.0 / PAGE_SIZE,
            !self.is_aligned() ==> r.0 == self.0 / PAGE_SIZE + 1,
    {
        if self.0 % PAGE_SIZE == 0 {
            VirtPageNum(self.0 / PAGE_SIZE)
        } else {
            VirtPageNum(self.0 / PAGE_SIZE + 1)
        }
    }

    /// The low 12 bits: the offset inside the page.
    pub fn page_offset(&self) -> (r: u64)
        ensures
            r == self.0 & 0xfff,
            r == self.0 % PAGE_SIZE,
    {
        let v: u64 = self.0;
        assert(v & 0xfff == v % 0x1000) by (bit_vector);
        self.0 & (PAGE_SIZE - 1)
    }

    /// Whether the address is the first byte of a page.
    pub fn aligned(&self) -> (r: bool)
        ensures
            r == self.is_aligned(),
    {
        self.page_offset() == 0
    }
}

impl PhysAddr {
    /// Whether the address is the first byte of a page.
    pub open spec fn is_aligned(self) -> bool {
        self.0 % PAGE_SIZE == 0
    }

    /// The number of the page that holds this address.
    pub fn floor(&self) -> (r: PhysPageNum)
        ensures
            r.0 == self.0 / PAGE_SIZE,
    {
        PhysPageNum(self.0 / PAGE_SIZE)
    }

    /// The number of the first page that starts at or after this address.
    ///
    /// Address zero is a legal input and gives page zero; no input wraps
    /// around.
    pub fn ceil(&self) -> (r: PhysPageNum)
        ensures
            r.0 == pages_up(self.0),
            self.is_aligned() ==> r.0 == self.0 / PAGE_SIZE,
            !self.is_aligned() ==> r.0 == self.0 / PAGE_SIZE + 1,
    {
        if self.0 % PAGE_SIZE == 0 {
            PhysPageNum(self.0 / PAGE_SIZE)
        } else {
            PhysPageNum(self.0 / PAGE_SIZE + 1)
        }
    }

    /// The low 12 bits: the offset inside the page.
    pub fn page_offset(&self) -> (r: u64)
        ensures
            r == self.0 & 0xfff,
            r == self.0 % PAGE_SIZE,
    {
        let v: u64 = self.0;
        assert(v & 0xfff == v % 0x1000) by (bit_vector);
        self.0 & (PAGE_SIZE - 1)
    }

    /// Whether the address is the first byte of a page.
    pub fn aligned(&self) -> (r: bool)
        ensures
            r == self.is_aligned(),
    {
        self.page_offset() == 0
    }
}

impl VirtPageNum {
    /// The page that starts at `v`, which must be the first byte of a page.
    pub fn from_aligned(v: VirtAddr) -> (r: Self)
        requires
            v.is_aligned(),
        ensures
            r.0 == v.0 / PAGE_SIZE,
            r.0 * PAGE_SIZE == v.0,
    {
        v.floor()
    }

    /// The index into the table of each level, in the order of the walk:
    /// bits 26 to 18, bits 17 to 9, bits 8 to 0.
    pub open spec fn index(self, level: int) -> usize {
        if level == 0 {
            ((self.0 >> 18) & 511) as usize
        } else if level == 1 {
            ((self.0 >> 9) & 511) as usize
        } else {
            (self.0 & 511) as usize
        }
    }

    /// The low 27 bits, which are all that a table walk reads.
    pub open spec fn key(self) -> u64 {
        self.0 & VPN_MASK
    }

    /// The three indices of the table walk, that of the root table first.
    pub fn indexes(&self) -> (r: [usize; 3])
        ensures
            r[0] == self.index(0),
            r[1] == self.index(1),
            r[2] == self.index(2),
            r[0] < 512,
            r[1] < 512,
            r[2] < 512,
            r[0] == (self.key() / 0x4_0000) % 512,
            r[1] == (self.key() / 512) % 512,
            r[2] == self.key() % 512,
    {
        let v: u64 = self.0;
        assert({
            &&& (v >> 18) & 511 < 512 && (v >> 9) & 511 < 512 && v & 511 < 512
            &&& (v >> 18) & 511 == ((v & 0x7ff_ffff) / 0x4_0000) % 512
            &&& (v >> 9) & 511 == ((v & 0x7ff_ffff) / 512) % 512
            &&& v & 511 == (v & 0x7ff_ffff) % 512
        }) by (bit_vector);
        let i0: usize = ((v >> 18) & 511) as usize;
        let i1: usize = ((v >> 9) & 511) as usize;
        let i2: usize = (v & 511) as usize;
        [i0, i1, i2]
    }
}

impl PhysPageNum {
    /// The page that starts at `v`, which must be the first byte of a page.
    pub fn from_aligned(v: PhysAddr) -> (r: Self)
        requires
            v.is_aligned(),
        ensures
            r.0 == v.0 / PAGE_SIZE,
            r.0 * PAGE_SIZE == v.0,
    {
        v.floor()
    }
}

/// Each mask is the low bits of its width, and the page size is two to the
/// number of offset bits.
pub proof fn lemma_masks_match_widths()
    ensures
        PA_MASK == (1u64 << PA_WIDTH_SV39) - 1,
        VA_MASK == (1u64 << VA_WIDTH_SV39) - 1,
        PPN_MASK == (1u64 << PPN_WIDTH_SV39) - 1,
        VPN_MASK == (1u64 << VPN_WIDTH_SV39) - 1,
        VA_SIGN_BIT == 1u64 << (VA_WIDTH_SV39 - 1),
        VA_HIGH_BITS == !VA_MASK,
        PAGE_SIZE == 1u64 << PAGE_SIZE_BITS,
        PPN_WIDTH_SV39 == PA_WIDTH_SV39 - PAGE_SIZE_BITS,
        VPN_WIDTH_SV39 == VA_WIDTH_SV39 - PAGE_SIZE_BITS,
{
    assert((1u64 << 56) - 1 == 0x00ff_ffff_ffff_ffff && (1u64 << 39) - 1 == 0x0000_007f_ffff_ffff
        && (1u64 << 44) - 1 == 0x0000_0fff_ffff_ffff && (1u64 << 27) - 1 == 0x0000_0000_07ff_ffff
        && 1u64 << 38 == 0x0000_0040_0000_0000 && !0x0000_007f_ffff_ffffu64
        == 0xffff_ff80_0000_0000 && 1u64 << 12 == 0x1000) by (bit_vector);
}

/// A raw word narrowed to an address or a page number fits the width of its
/// type.
pub proof fn lemma_from_word_fits(w: u64)
    ensures
        PhysAddr::from_spec(w).0 < 0x0100_0000_0000_0000,
        VirtAddr::from_spec(w).0 < 0x0000_0080_0000_0000,
        PhysPageNum::from_spec(w).0 < 0x0000_1000_0000_0000,
        VirtPageNum::from_spec(w).0 < 0x0000_0000_0800_0000,
{
    assert({
        &&& w & 0x00ff_ffff_ffff_ffff < 0x0100_0000_0000_0000
        &&& w & 0x0000_007f_ffff_ffff < 0x0000_0080_0000_0000
        &&& w & 0x0000_0fff_ffff_ffff < 0x0000_1000_0000_0000
        &&& w & 0x0000_0000_07ff_ffff < 0x0000_0000_0800_0000
    }) by (bit_vector);
}

/// Narrowing a word that already fits the width changes nothing.
pub proof fn lemma_from_word_keeps_narrow(w: u64)
    ensures
        w < 0x0100_0000_0000_0000 ==> PhysAddr::from_spec(w).0 == w,
        w < 0x0000_0080_0000_0000 ==> VirtAddr::from_spec(w).0 == w,
        w < 0x0000_1000_0000_0000 ==> PhysPageNum::from_spec(w).0 == w,
        w < 0x0000_0000_0800_0000 ==> VirtPageNum::from_spec(w).0 == w,
{
    assert({
        &&& w < 0x0100_0000_0000_0000 ==> w & 0x00ff_ffff_ffff_ffff == w
        &&& w < 0x0000_0080_0000_0000 ==> w & 0x0000_007f_ffff_ffff == w
        &&& w < 0x0000_1000_0000_0000 ==> w & 0x0000_0fff_ffff_ffff == w
        &&& w < 0x0000_0000_0800_0000 ==> w & 0x0000_0000_07ff_ffff == w
    }) by (bit_vector);
}

/// Widening a 39-bit virtual address gives a canonical word: with bit 38
/// set, bits 39 to 63 are all ones and the low 39 bits are kept; with bit 38
/// clear, the word is the value itself. Narrowing the word gives the address
/// back.
pub proof fn lemma_widen_is_canonical(v: VirtAddr)
    requires
        v.0 < 0x0000_0080_0000_0000,
    ensures
        v.0 & VA_SIGN_BIT != 0 ==> u64::from_spec(v) & VA_HIGH_BITS == VA_HIGH_BITS,
        v.0 & VA_SIGN_BIT != 0 ==> u64::from_spec(v) & VA_MASK == v.0,
        v.0 & VA_SIGN_BIT == 0 ==> u64::from_spec(v) == v.0,
        VirtAddr::from_spec(u64::from_spec(v)) == v,
{
    let x: u64 = v.0;
    assert({
        &&& x < 0x0000_0080_0000_0000 ==> (x & 0x0000_0040_0000_0000 != 0 <==> x
            >= 0x0000_0040_0000_0000)
        &&& (x | 0xffff_ff80_0000_0000) & 0xffff_ff80_0000_0000 == 0xffff_ff80_0000_0000
        &&& x < 0x0000_0080_0000_0000 ==> (x | 0xffff_ff80_0000_0000) & 0x0000_007f_ffff_ffff == x
        &&& x < 0x0000_0080_0000_0000 ==> x & 0x0000_007f_ffff_ffff == x
    }) by (bit_vector);
}

/// A page-aligned physical address of at most 56 bits is the address of its
/// own page, and the page of a page number's address is that page number,
/// for physical page numbers of at most 44 bits and virtual ones of at most
/// 27.
pub proof fn lemma_page_round_trip(a: PhysAddr, p: PhysPageNum, v: VirtPageNum)
    ensures
        a.is_aligned() ==> PhysAddr::from_spec(PhysPageNum((a.0 / PAGE_SIZE) as u64)) == a,
        a.is_aligned() ==> a.0 & 0xfff == 0,
        p.0 < 0x0000_1000_0000_0000 ==> PhysAddr::from_spec(p).is_aligned()
            && PhysAddr::from_spec(p).0 / PAGE_SIZE == p.0,
        v.0 < 0x0000_0000_0800_0000 ==> VirtAddr::from_spec(v).is_aligned()
            && VirtAddr::from_spec(v).0 / PAGE_SIZE == v.0
            && VirtAddr::from_spec(v).0 < 0x0000_0080_0000_0000,
{
    let x: u64 = a.0;
    let y: u64 = p.0;
    let z: u64 = v.0;
    assert({
        &&& x % 0x1000 == 0 ==> (x / 0x1000) << 12 == x
        &&& x % 0x1000 == 0 ==> x & 0xfff == 0
        &&& y < 0x0000_1000_0000_0000 ==> (y << 12) % 0x1000 == 0 && (y << 12) / 0x1000 == y
        &&& z < 0x0000_0000_0800_0000 ==> (z << 12) % 0x1000 == 0 && (z << 12) / 0x1000 == z
            && (z << 12) < 0x0000_0080_0000_0000
    }) by (bit_vector);
}

/// The three indices of a virtual page number, put back in their places,
/// give its low 27 bits: the number itself where it fits 27 bits.
pub proof fn lemma_indexes_reassemble(v: VirtPageNum)
    ensures
        (v.index(0) as u64) << 18 | (v.index(1) as u64) << 9 | (v.index(2) as u64) == v.key(),
        v.0 < 0x0000_0000_0800_0000 ==> v.key() == v.0,
        v.index(0) * 0x4_0000 + v.index(1) * 512 + v.index(2) == v.key(),
        v.index(0) < 512 && v.index(1) < 512 && v.index(2) < 512,
{
    let x: u64 = v.0;
    assert({
        &&& ((x >> 18) & 511) << 18 | ((x >> 9) & 511) << 9 | (x & 511) == x & 0x7ff_ffff
        &&& x < 0x0000_0000_0800_0000 ==> x & 0x7ff_ffff == x
        &&& ((x >> 18) & 511) * 0x4_0000 + ((x >> 9) & 511) * 512 + (x & 511) == x & 0x7ff_ffff
        &&& (x >> 18) & 511 < 512 && (x >> 9) & 511 < 512 && x & 511 < 512
    }) by (bit_vector);
}

/// Two virtual page numbers have the same three indices exactly when their
/// low 27 bits agree.
pub proof fn lemma_indexes_decide_key(v: VirtPageNum, w: VirtPageNum)
    ensures
        (v.index(0) == w.index(0) && v.index(1) == w.index(1) && v.index(2) == w.index(2))
            <==> v.key() == w.key(),
{
    lemma_indexes_reassemble(v);
    lemma_indexes_reassemble(w);
    let x: u64 = v.0;
    let y: u64 = w.0;
    assert({
        &&& x & 0x7ff_ffff == y & 0x7ff_ffff ==> (x >> 18) & 511 == (y >> 18) & 511 && (x >> 9)
            & 511 == (y >> 9) & 511 && x & 511 == y & 511
        &&& (x >> 18) & 511 < 512 && (x >> 9) & 511 < 512 && x & 511 < 512
        &&& (y >> 18) & 511 < 512 && (y >> 9) & 511 < 512 && y & 511 < 512
    }) by (bit_vector);
}

} // verus!
