use sv39_mm::address::{PhysPageNum, VirtPageNum};
use sv39_mm::entry::PageTableEntry;
use sv39_mm::flags::PTEFlags;
use sv39_mm::memory::PhysMemory;
use sv39_mm::page_table::PageTable;

fn memory(frames: usize) -> PhysMemory {
    PhysMemory::new(PhysPageNum(0x80400), frames).unwrap()
}

#[test]
fn memory_starts_free_and_zeroed() {
    let mem = memory(4);
    assert_eq!(mem.free_frames(), 4);
    assert!(mem.contains(PhysPageNum(0x80400)));
    assert!(mem.contains(PhysPageNum(0x80403)));
    assert!(!mem.contains(PhysPageNum(0x80404)));
    assert!(!mem.contains(PhysPageNum(0x803ff)));
    assert!(!mem.is_allocated(PhysPageNum(0x80400)));
    for i in 0..512 {
        assert_eq!(mem.read(PhysPageNum(0x80402), i), PageTableEntry::empty());
    }
}

#[test]
fn memory_past_44_bits_is_refused() {
    assert!(PhysMemory::new(PhysPageNum((1u64 << 44) - 1), 2).is_none());
    assert!(PhysMemory::new(PhysPageNum((1u64 << 44) - 1), 1).is_some());
    assert!(PhysMemory::new(PhysPageNum(1u64 << 44), 1).is_none());
    assert!(PhysMemory::new(PhysPageNum(1u64 << 44), 0).is_some());
    assert!(PhysMemory::new(PhysPageNum(0), usize::MAX).is_none());
}

#[test]
fn frame_alloc_hands_out_the_lowest_free_frame() {
    let mut mem = memory(3);
    let a = mem.frame_alloc().unwrap();
    let b = mem.frame_alloc().unwrap();
    assert_eq!(a.ppn, PhysPageNum(0x80400));
    assert_eq!(b.ppn, PhysPageNum(0x80401));
    assert_eq!(mem.free_frames(), 1);
    assert!(mem.is_allocated(PhysPageNum(0x80400)));
    mem.frame_dealloc(a);
    assert!(!mem.is_allocated(PhysPageNum(0x80400)));
    assert_eq!(mem.free_frames(), 2);
    let c = mem.frame_alloc().unwrap();
    assert_eq!(c.ppn, PhysPageNum(0x80400));
    let d = mem.frame_alloc().unwrap();
    assert_eq!(d.ppn, PhysPageNum(0x80402));
    assert!(mem.frame_alloc().is_none());
    assert_eq!(mem.free_frames(), 0);
    mem.frame_dealloc(b);
    assert_eq!(mem.frame_alloc().unwrap().ppn, PhysPageNum(0x80401));
}

#[test]
fn frame_alloc_zeroes_the_frame() {
    let mut mem = memory(2);
    let a = mem.frame_alloc().unwrap();
    let e = PageTableEntry::new(PhysPageNum(7), PTEFlags::V());
    mem.write(a.ppn, 0, e);
    mem.write(a.ppn, 511, e);
    assert_eq!(mem.read(a.ppn, 0), e);
    assert_eq!(mem.read(a.ppn, 511), e);
    assert_eq!(mem.read(a.ppn, 1), PageTableEntry::empty());
    mem.frame_dealloc(a);
    assert_eq!(mem.read(PhysPageNum(0x80400), 0), e);
    let b = mem.frame_alloc().unwrap();
    assert_eq!(b.ppn, PhysPageNum(0x80400));
    for i in 0..512 {
        assert_eq!(mem.read(b.ppn, i), PageTableEntry::empty());
    }
}

#[test]
fn write_changes_one_entry() {
    let mut mem = memory(2);
    let e = PageTableEntry::new(PhysPageNum(9), PTEFlags::V() | PTEFlags::X());
    mem.write(PhysPageNum(0x80401), 17, e);
    for i in 0..512 {
        assert_eq!(mem.read(PhysPageNum(0x80400), i), PageTableEntry::empty());
        let want = if i == 17 { e } else { PageTableEntry::empty() };
        assert_eq!(mem.read(PhysPageNum(0x80401), i), want);
    }
}

#[test]
fn new_table_owns_its_root_and_maps_nothing() {
    let mut mem = memory(4);
    let table = PageTable::new(&mut mem);
    assert_eq!(table.root_ppn(), PhysPageNum(0x80400));
    assert_eq!(table.frame_count(), 1);
    assert_eq!(mem.free_frames(), 3);
    assert!(mem.is_allocated(table.root_ppn()));
    assert_eq!(table.translate(&mem, VirtPageNum(0)), None);
    assert_eq!(table.translate(&mem, VirtPageNum(0x1_0000)), None);
    assert_eq!(table.translate(&mem, VirtPageNum((1 << 27) - 1)), None);
    assert_eq!(table.frames_needed(&mem, VirtPageNum(0x1_0000)), 2);
}

#[test]
fn map_then_translate_then_unmap() {
    let mut mem = memory(8);
    let mut table = PageTable::new(&mut mem);
    let vpn = VirtPageNum(0x1_0000);
    let ppn = PhysPageNum(0x8_0000);
    table.map(&mut mem, vpn, ppn, PTEFlags::R() | PTEFlags::W());
    let e = table.translate(&mem, vpn).unwrap();
    assert!(e.is_valid());
    assert_eq!(e.ppn(), ppn);
    assert_eq!(e.flags(), PTEFlags::V() | PTEFlags::R() | PTEFlags::W());
    table.unmap(&mut mem, vpn);
    let e = table.translate(&mem, vpn);
    assert_eq!(e, Some(PageTableEntry::empty()));
    assert!(!e.unwrap().is_valid());
}

#[test]
fn map_sets_the_valid_flag_itself() {
    let mut mem = memory(8);
    let mut table = PageTable::new(&mut mem);
    table.map(&mut mem, VirtPageNum(5), PhysPageNum(0x1234), PTEFlags::X() | PTEFlags::U());
    let e = table.translate(&mem, VirtPageNum(5)).unwrap();
    assert_eq!(e, PageTableEntry::new(PhysPageNum(0x1234), PTEFlags { bits: 0b11001 }));
    assert_eq!(e.bits, (0x1234 << 10) | 0b11001);
    table.map(&mut mem, VirtPageNum(6), PhysPageNum(0x1235), PTEFlags::V() | PTEFlags::R());
    let e = table.translate(&mem, VirtPageNum(6)).unwrap();
    assert_eq!(e.flags(), PTEFlags::V() | PTEFlags::R());
}

#[test]
fn map_writes_the_three_levels_where_the_indexes_say() {
    let mut mem = memory(8);
    let mut table = PageTable::new(&mut mem);
    let vpn = VirtPageNum((3 << 18) | (5 << 9) | 7);
    table.map(&mut mem, vpn, PhysPageNum(0xabc), PTEFlags::R());
    let root = table.root_ppn();
    let top = mem.read(root, 3);
    assert_eq!(top, PageTableEntry::new(PhysPageNum(0x80401), PTEFlags::V()));
    let mid = mem.read(top.ppn(), 5);
    assert_eq!(mid, PageTableEntry::new(PhysPageNum(0x80402), PTEFlags::V()));
    let leaf = mem.read(mid.ppn(), 7);
    assert_eq!(leaf, PageTableEntry::new(PhysPageNum(0xabc), PTEFlags::V() | PTEFlags::R()));
    assert_eq!(table.find_pte(&mem, vpn), Some((PhysPageNum(0x80402), 7)));
    for i in 0..512 {
        if i != 3 {
            assert!(!mem.read(root, i).is_valid());
        }
        if i != 5 {
            assert!(!mem.read(top.ppn(), i).is_valid());
        }
        if i != 7 {
            assert!(!mem.read(mid.ppn(), i).is_valid());
        }
    }
}

#[test]
fn map_leaves_other_pages_as_they_were() {
    let mut mem = memory(16);
    let mut table = PageTable::new(&mut mem);
    let a = VirtPageNum(0x1_0000);
    let b = VirtPageNum(0x1_0001);
    let c = VirtPageNum(0x2_0000);
    let d = VirtPageNum(1 << 26);
    table.map(&mut mem, a, PhysPageNum(0x100), PTEFlags::R());
    assert_eq!(table.translate(&mem, b), Some(PageTableEntry::empty()));
    assert_eq!(table.translate(&mem, c), None);
    assert_eq!(table.translate(&mem, d), None);
    table.map(&mut mem, b, PhysPageNum(0x101), PTEFlags::W());
    table.map(&mut mem, c, PhysPageNum(0x102), PTEFlags::X());
    table.map(&mut mem, d, PhysPageNum(0x103), PTEFlags::U());
    assert_eq!(table.translate(&mem, a).unwrap().ppn(), PhysPageNum(0x100));
    assert_eq!(table.translate(&mem, b).unwrap().ppn(), PhysPageNum(0x101));
    assert_eq!(table.translate(&mem, c).unwrap().ppn(), PhysPageNum(0x102));
    assert_eq!(table.translate(&mem, d).unwrap().ppn(), PhysPageNum(0x103));
    table.unmap(&mut mem, b);
    assert_eq!(table.translate(&mem, a).unwrap().ppn(), PhysPageNum(0x100));
    assert_eq!(table.translate(&mem, b), Some(PageTableEntry::empty()));
    assert_eq!(table.translate(&mem, c).unwrap().ppn(), PhysPageNum(0x102));
    assert_eq!(table.translate(&mem, d).unwrap().ppn(), PhysPageNum(0x103));
}

#[test]
fn bits_above_27_of_a_page_number_are_not_read() {
    let mut mem = memory(8);
    let mut table = PageTable::new(&mut mem);
    table.map(&mut mem, VirtPageNum(0x42), PhysPageNum(0x77), PTEFlags::R());
    let e = table.translate(&mem, VirtPageNum((1 << 27) | 0x42)).unwrap();
    assert_eq!(e.ppn(), PhysPageNum(0x77));
}

#[test]
fn frames_are_counted_one_for_each_node() {
    let mut mem = memory(16);
    let mut table = PageTable::new(&mut mem);
    assert_eq!(table.frame_count(), 1);
    let a = VirtPageNum(0x1_0000);
    assert_eq!(table.frames_needed(&mem, a), 2);
    table.map(&mut mem, a, PhysPageNum(1), PTEFlags::R());
    assert_eq!(table.frame_count(), 3);
    assert_eq!(mem.free_frames(), 13);
    let b = VirtPageNum(0x1_0001);
    assert_eq!(table.frames_needed(&mem, b), 0);
    table.map(&mut mem, b, PhysPageNum(2), PTEFlags::R());
    assert_eq!(table.frame_count(), 3);
    let c = VirtPageNum(0x1_0000 + 512);
    assert_eq!(table.frames_needed(&mem, c), 1);
    table.map(&mut mem, c, PhysPageNum(3), PTEFlags::R());
    assert_eq!(table.frame_count(), 4);
    let d = VirtPageNum(1 << 18);
    assert_eq!(table.frames_needed(&mem, d), 2);
    table.map(&mut mem, d, PhysPageNum(4), PTEFlags::R());
    assert_eq!(table.frame_count(), 6);
    assert_eq!(mem.free_frames(), 10);
    table.unmap(&mut mem, a);
    table.unmap(&mut mem, b);
    table.unmap(&mut mem, c);
    table.unmap(&mut mem, d);
    assert_eq!(table.frame_count(), 6);
    assert_eq!(mem.free_frames(), 10);
    table.map(&mut mem, a, PhysPageNum(5), PTEFlags::R());
    assert_eq!(table.frame_count(), 6);
}

#[test]
fn unmapped_page_keeps_its_nodes() {
    let mut mem = memory(8);
    let mut table = PageTable::new(&mut mem);
    let vpn = VirtPageNum(0x1_0000);
    assert_eq!(table.translate(&mem, vpn), None);
    assert_eq!(table.find_pte(&mem, vpn), None);
    table.map(&mut mem, vpn, PhysPageNum(0x8_0000), PTEFlags::R() | PTEFlags::W());
    table.unmap(&mut mem, vpn);
    assert!(table.translate(&mem, vpn).is_some());
    assert!(table.find_pte(&mem, vpn).is_some());
    assert_eq!(table.frames_needed(&mem, vpn), 0);
    assert_eq!(table.frame_count(), 3);
}

#[test]
fn a_mapped_page_shows_as_mapped_and_an_unmapped_one_does_not() {
    let mut mem = memory(8);
    let mut table = PageTable::new(&mut mem);
    let vpn = VirtPageNum(0x1_0000);
    let mapped = |t: &PageTable, m: &PhysMemory| match t.translate(m, vpn) {
        Some(e) => e.is_valid(),
        None => false,
    };
    assert!(!mapped(&table, &mem));
    table.map(&mut mem, vpn, PhysPageNum(0x8_0000), PTEFlags::R());
    assert!(mapped(&table, &mem));
    table.unmap(&mut mem, vpn);
    assert!(!mapped(&table, &mem));
}

#[test]
fn find_pte_create_makes_the_nodes_and_no_mapping() {
    let mut mem = memory(8);
    let mut table = PageTable::new(&mut mem);
    let vpn = VirtPageNum((1 << 18) | (2 << 9) | 3);
    let slot = table.find_pte_create(&mut mem, vpn);
    assert_eq!(slot, Some((PhysPageNum(0x80402), 3)));
    assert_eq!(table.frame_count(), 3);
    assert_eq!(table.translate(&mem, vpn), Some(PageTableEntry::empty()));
    assert_eq!(table.find_pte_create(&mut mem, vpn), slot);
    assert_eq!(table.frame_count(), 3);
}

#[test]
fn from_token_reads_the_low_44_bits() {
    let t = PageTable::from_token((8u64 << 60) | 0x80400);
    assert_eq!(t.root_ppn(), PhysPageNum(0x80400));
    assert_eq!(t.frame_count(), 0);
    let t = PageTable::from_token(u64::MAX);
    assert_eq!(t.root_ppn(), PhysPageNum((1u64 << 44) - 1));
}

#[test]
fn a_view_from_a_token_sees_what_the_table_maps() {
    let mut mem = memory(8);
    let mut table = PageTable::new(&mut mem);
    let vpn = VirtPageNum(0x1_0000);
    table.map(&mut mem, vpn, PhysPageNum(0x8_0000), PTEFlags::R() | PTEFlags::U());
    let token = (8u64 << 60) | table.root_ppn().0;
    let view = PageTable::from_token(token);
    assert_eq!(view.translate(&mem, vpn), table.translate(&mem, vpn));
    assert_eq!(view.translate(&mem, vpn).unwrap().ppn(), PhysPageNum(0x8_0000));
    assert_eq!(view.translate(&mem, VirtPageNum(0x2_0000)), None);
    assert_eq!(mem.free_frames(), 5);
}

#[test]
fn a_view_of_a_root_outside_memory_finds_nothing() {
    let mem = memory(2);
    let view = PageTable::from_token(0x1234);
    assert_eq!(view.translate(&mem, VirtPageNum(0)), None);
    assert_eq!(view.frames_needed(&mem, VirtPageNum(0)), 2);
}

#[test]
fn release_gives_every_frame_back() {
    let mut mem = memory(8);
    let mut table = PageTable::new(&mut mem);
    table.map(&mut mem, VirtPageNum(0x1_0000), PhysPageNum(1), PTEFlags::R());
    table.map(&mut mem, VirtPageNum(1 << 20), PhysPageNum(2), PTEFlags::R());
    assert_eq!(table.frame_count(), 5);
    assert_eq!(mem.free_frames(), 3);
    table.release(&mut mem);
    assert_eq!(mem.free_frames(), 8);
    for p in 0x80400..0x80408 {
        assert!(!mem.is_allocated(PhysPageNum(p)));
    }
}

#[test]
fn two_tables_do_not_touch_each_other() {
    let mut mem = memory(16);
    let mut one = PageTable::new(&mut mem);
    let mut two = PageTable::new(&mut mem);
    assert_eq!(one.root_ppn(), PhysPageNum(0x80400));
    assert_eq!(two.root_ppn(), PhysPageNum(0x80401));
    let vpn = VirtPageNum(0x1_0000);
    one.map(&mut mem, vpn, PhysPageNum(0x111), PTEFlags::R());
    assert_eq!(two.translate(&mem, vpn), None);
    two.map(&mut mem, vpn, PhysPageNum(0x222), PTEFlags::W());
    assert_eq!(one.translate(&mem, vpn).unwrap().ppn(), PhysPageNum(0x111));
    assert_eq!(two.translate(&mem, vpn).unwrap().ppn(), PhysPageNum(0x222));
    one.unmap(&mut mem, vpn);
    assert_eq!(two.translate(&mem, vpn).unwrap().ppn(), PhysPageNum(0x222));
    one.release(&mut mem);
    assert_eq!(two.translate(&mem, vpn).unwrap().ppn(), PhysPageNum(0x222));
    assert_eq!(two.frame_count(), 3);
    assert_eq!(mem.free_frames(), 13);
}
