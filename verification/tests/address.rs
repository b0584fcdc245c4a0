use sv39_mm::address::{PhysAddr, PhysPageNum, VirtAddr, VirtPageNum, PAGE_SIZE};

#[test]
fn phys_addr_keeps_low_56_bits() {
    assert_eq!(PhysAddr::from(u64::MAX).0, (1u64 << 56) - 1);
    assert_eq!(PhysAddr::from(0x1234u64).0, 0x1234);
    assert_eq!(PhysAddr::from(1u64 << 56).0, 0);
    assert_eq!(PhysAddr::from((1u64 << 56) | 0x8020_0000).0, 0x8020_0000);
}

#[test]
fn page_numbers_keep_their_width() {
    assert_eq!(PhysPageNum::from(u64::MAX).0, (1u64 << 44) - 1);
    assert_eq!(PhysPageNum::from(1u64 << 44).0, 0);
    assert_eq!(VirtPageNum::from(u64::MAX).0, (1u64 << 27) - 1);
    assert_eq!(VirtPageNum::from((1u64 << 27) | 5).0, 5);
    assert_eq!(VirtAddr::from(u64::MAX).0, (1u64 << 39) - 1);
    assert_eq!(VirtAddr::from(1u64 << 39).0, 0);
}

#[test]
fn narrowing_is_below_the_width_for_many_words() {
    let mut w: u64 = 0x9e37_79b9_7f4a_7c15;
    for _ in 0..1000 {
        w = w.wrapping_mul(6364136223846793005).wrapping_add(1442695040888963407);
        assert!(PhysAddr::from(w).0 < 1u64 << 56);
        assert!(PhysPageNum::from(w).0 < 1u64 << 44);
        assert!(VirtPageNum::from(w).0 < 1u64 << 27);
        assert!(VirtAddr::from(w).0 < 1u64 << 39);
    }
}

#[test]
fn widening_a_low_virtual_address_keeps_it() {
    assert_eq!(u64::from(VirtAddr(0)), 0);
    assert_eq!(u64::from(VirtAddr(0x1000)), 0x1000);
    assert_eq!(u64::from(VirtAddr((1u64 << 38) - 1)), (1u64 << 38) - 1);
}

#[test]
fn widening_a_high_virtual_address_sets_the_upper_bits() {
    assert_eq!(u64::from(VirtAddr(1u64 << 38)), 0xffff_ffc0_0000_0000);
    assert_eq!(u64::from(VirtAddr((1u64 << 39) - 1)), u64::MAX);
    assert_eq!(u64::from(VirtAddr((1u64 << 38) | 0x1234)), 0xffff_ffc0_0000_1234);
    let w = u64::from(VirtAddr::from(0x40_0000_0000u64));
    assert_eq!(w >> 39, (1u64 << 25) - 1);
}

#[test]
fn widening_then_narrowing_gives_the_address_back() {
    for v in [0u64, 1, 0xfff, 1 << 38, (1 << 39) - 1, 0x12_3456_7000] {
        let a = VirtAddr::from(v);
        assert_eq!(VirtAddr::from(u64::from(a)), a);
    }
}

#[test]
fn plain_conversions_give_the_value() {
    assert_eq!(u64::from(PhysAddr(0x8020_0000)), 0x8020_0000);
    assert_eq!(u64::from(PhysPageNum(0x80200)), 0x80200);
    assert_eq!(u64::from(VirtPageNum(0x1_0000)), 0x1_0000);
}

#[test]
fn floor_drops_the_offset() {
    assert_eq!(PhysAddr(0).floor(), PhysPageNum(0));
    assert_eq!(PhysAddr(4095).floor(), PhysPageNum(0));
    assert_eq!(PhysAddr(4096).floor(), PhysPageNum(1));
    assert_eq!(PhysAddr(0x8020_0abc).floor(), PhysPageNum(0x80200));
    assert_eq!(VirtAddr(0x1234_5678).floor(), VirtPageNum(0x12345));
}

#[test]
fn ceil_rounds_up_to_the_next_page() {
    assert_eq!(PhysAddr(4096 * 2).ceil(), PhysPageNum(2));
    assert_eq!(PhysAddr(4097 * 2).ceil(), PhysPageNum(3));
    assert_eq!(PhysAddr(1).ceil(), PhysPageNum(1));
    assert_eq!(PhysAddr(4095).ceil(), PhysPageNum(1));
    assert_eq!(PhysAddr(4096).ceil(), PhysPageNum(1));
    assert_eq!(PhysAddr(4097).ceil(), PhysPageNum(2));
    assert_eq!(VirtAddr(0x1234_5678).ceil(), VirtPageNum(0x12346));
    assert_eq!(VirtAddr(0x1234_5000).ceil(), VirtPageNum(0x12345));
}

#[test]
fn ceil_of_zero_is_page_zero() {
    assert_eq!(PhysAddr(0).ceil(), PhysPageNum(0));
    assert_eq!(VirtAddr(0).ceil(), VirtPageNum(0));
}

#[test]
fn ceil_of_the_largest_word_does_not_wrap() {
    assert_eq!(PhysAddr(u64::MAX).ceil(), PhysPageNum(1u64 << 52));
    assert_eq!(VirtAddr(u64::MAX - 4095).ceil(), VirtPageNum((1u64 << 52) - 1));
    assert_eq!(VirtAddr(u64::MAX - 4094).ceil(), VirtPageNum(1u64 << 52));
}

#[test]
fn page_offset_is_the_low_12_bits() {
    assert_eq!(PhysAddr(0x8020_0abc).page_offset(), 0xabc);
    assert_eq!(PhysAddr(0x8020_0000).page_offset(), 0);
    assert_eq!(VirtAddr(0xfff).page_offset(), 0xfff);
    assert_eq!(VirtAddr(0x1000).page_offset(), 0);
}

#[test]
fn aligned_means_offset_zero() {
    assert!(PhysAddr(0).aligned());
    assert!(PhysAddr(0x8020_0000).aligned());
    assert!(!PhysAddr(0x8020_0001).aligned());
    assert!(VirtAddr(PAGE_SIZE * 7).aligned());
    assert!(!VirtAddr(PAGE_SIZE * 7 + 4095).aligned());
}

#[test]
fn aligned_address_and_page_number_round_trip() {
    for a in [0u64, 0x1000, 0x8020_0000, ((1u64 << 56) - 1) & !0xfff] {
        let pa = PhysAddr::from(a);
        assert!(pa.aligned());
        let back = PhysAddr::from(PhysPageNum::from_aligned(pa));
        assert_eq!(back, pa);
        assert_eq!(back.page_offset(), 0);
    }
    for p in [0u64, 1, 0x1_0000, (1u64 << 27) - 1] {
        let vpn = VirtPageNum::from(p);
        let va = VirtAddr::from(vpn);
        assert!(va.aligned());
        assert_eq!(VirtPageNum::from_aligned(va), vpn);
    }
}

#[test]
fn page_number_to_address_shifts_by_12() {
    assert_eq!(PhysAddr::from(PhysPageNum(0x80200)), PhysAddr(0x8020_0000));
    assert_eq!(VirtAddr::from(VirtPageNum(0x1_0000)), VirtAddr(0x1000_0000));
}

#[test]
fn indexes_are_the_three_nine_bit_fields() {
    assert_eq!(VirtPageNum(0).indexes(), [0, 0, 0]);
    assert_eq!(VirtPageNum(0x1_0000).indexes(), [0, 128, 0]);
    assert_eq!(VirtPageNum((1 << 27) - 1).indexes(), [511, 511, 511]);
    assert_eq!(VirtPageNum((3 << 18) | (5 << 9) | 7).indexes(), [3, 5, 7]);
    assert_eq!(VirtPageNum(1 << 27).indexes(), [0, 0, 0]);
}

#[test]
fn indexes_reassemble_to_the_page_number() {
    let mut w: u64 = 12345;
    for _ in 0..1000 {
        w = w.wrapping_mul(6364136223846793005).wrapping_add(1442695040888963407);
        let v = VirtPageNum::from(w >> 13);
        let i = v.indexes();
        assert!(i[0] < 512 && i[1] < 512 && i[2] < 512);
        assert_eq!(((i[0] as u64) << 18) | ((i[1] as u64) << 9) | (i[2] as u64), v.0);
    }
}

#[test]
fn page_numbers_are_ordered_by_value() {
    assert!(PhysPageNum(1) < PhysPageNum(2));
    assert!(VirtAddr(0x2000) > VirtAddr(0x1fff));
    assert_eq!(VirtPageNum(7).max(VirtPageNum(9)), VirtPageNum(9));
}
