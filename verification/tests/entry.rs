use sv39_mm::address::PhysPageNum;
use sv39_mm::entry::PageTableEntry;
use sv39_mm::flags::PTEFlags;

#[test]
fn flags_are_single_bits() {
    assert_eq!(PTEFlags::V().bits(), 1 << 0);
    assert_eq!(PTEFlags::R().bits(), 1 << 1);
    assert_eq!(PTEFlags::W().bits(), 1 << 2);
    assert_eq!(PTEFlags::X().bits(), 1 << 3);
    assert_eq!(PTEFlags::U().bits(), 1 << 4);
    assert_eq!(PTEFlags::G().bits(), 1 << 5);
    assert_eq!(PTEFlags::A().bits(), 1 << 6);
    assert_eq!(PTEFlags::D().bits(), 1 << 7);
}

#[test]
fn flags_combine_and_intersect() {
    let rw = PTEFlags::R() | PTEFlags::W();
    assert_eq!(rw.bits(), 0b110);
    assert!(rw.contains(PTEFlags::R()));
    assert!(rw.contains(PTEFlags::W()));
    assert!(!rw.contains(PTEFlags::X()));
    assert!(!rw.contains(PTEFlags::R() | PTEFlags::X()));
    assert_eq!(rw & PTEFlags::W(), PTEFlags::W());
    assert_eq!(rw & PTEFlags::V(), PTEFlags::empty());
    assert!(PTEFlags::empty().is_empty());
    assert!(!rw.is_empty());
}

#[test]
fn every_byte_is_a_flag_set() {
    for b in 0..=255u8 {
        assert_eq!(PTEFlags::from_bits(b), Some(PTEFlags { bits: b }));
        assert_eq!(PTEFlags::from_bits(b).unwrap().bits(), b);
    }
}

#[test]
fn new_packs_page_number_above_bit_10() {
    let e = PageTableEntry::new(PhysPageNum(0x80000), PTEFlags::V() | PTEFlags::R());
    assert_eq!(e.bits, (0x80000 << 10) | 0b11);
    let e = PageTableEntry::new(PhysPageNum(1), PTEFlags::empty());
    assert_eq!(e.bits, 1 << 10);
}

#[test]
fn empty_entry_is_all_zero_and_not_valid() {
    let e = PageTableEntry::empty();
    assert_eq!(e.bits, 0);
    assert!(!e.is_valid());
    assert_eq!(e.ppn(), PhysPageNum(0));
    assert_eq!(e.flags(), PTEFlags::empty());
}

#[test]
fn entry_gives_back_page_number_and_flags() {
    let ppns = [0u64, 1, 0x80000, 0x8_0000_0000, (1u64 << 44) - 1];
    for p in ppns {
        for b in 0..=255u8 {
            let f = PTEFlags { bits: b };
            let e = PageTableEntry::new(PhysPageNum(p), f);
            assert_eq!(e.ppn(), PhysPageNum(p));
            assert_eq!(e.flags(), f);
            assert_eq!(e.is_valid(), b & 1 == 1);
        }
    }
}

#[test]
fn ppn_reads_bits_10_to_53_only() {
    let e = PageTableEntry { bits: u64::MAX };
    assert_eq!(e.ppn(), PhysPageNum((1u64 << 44) - 1));
    assert_eq!(e.flags().bits(), 0xff);
    let e = PageTableEntry { bits: 0x3ff << 54 | 0x300 };
    assert_eq!(e.ppn(), PhysPageNum(0));
    assert_eq!(e.flags(), PTEFlags::empty());
    assert!(!e.is_valid());
}

#[test]
fn valid_needs_the_valid_flag() {
    assert!(PageTableEntry::new(PhysPageNum(5), PTEFlags::V()).is_valid());
    assert!(!PageTableEntry::new(PhysPageNum(5), PTEFlags::R() | PTEFlags::W()).is_valid());
    assert!(PageTableEntry::new(PhysPageNum(5), PTEFlags::R() | PTEFlags::V()).is_valid());
}
