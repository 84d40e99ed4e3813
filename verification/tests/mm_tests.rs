use rcore_os::address::{PhysAddr, PhysPageNum, VirtAddr, VirtPageNum};
use rcore_os::frame::{alloc_pte_frame, frame_alloc, frame_dealloc, init_frame_allocator, FrameAllocator};
use rcore_os::page_table::PageTable;
use rcore_os::phys_mem::PhysMem;
use rcore_os::pte::{PTEFlags, PageTableEntry};
use rcore_os::vpn_range::VpnRange;

fn fresh(start: u64, end: u64) -> FrameAllocator {
    let mut a = FrameAllocator::new();
    init_frame_allocator(&mut a, PhysPageNum(start), PhysPageNum(end));
    a
}

#[test]
fn allocator_hands_out_in_order_then_none() {
    let mut a = fresh(10, 13);
    assert_eq!(frame_alloc(&mut a), Some(PhysPageNum(10)));
    assert_eq!(frame_alloc(&mut a), Some(PhysPageNum(11)));
    assert_eq!(frame_alloc(&mut a), Some(PhysPageNum(12)));
    assert_eq!(frame_alloc(&mut a), None);
    assert_eq!(FrameAllocator::new().allocate(), None);
}

#[test]
fn allocator_recycles_last_given_back_first() {
    let mut a = fresh(10, 20);
    let p = frame_alloc(&mut a).unwrap();
    let q = frame_alloc(&mut a).unwrap();
    frame_dealloc(&mut a, p);
    frame_dealloc(&mut a, q);
    assert_eq!(a.allocate(), Some(q));
    assert_eq!(a.allocate(), Some(p));
    assert_eq!(a.allocate(), Some(PhysPageNum(12)));
}

#[test]
fn dealloc_undoes_alloc() {
    let mut a = fresh(100, 102);
    let p = frame_alloc(&mut a).unwrap();
    frame_dealloc(&mut a, p);
    assert_eq!(frame_alloc(&mut a), Some(PhysPageNum(100)));
    assert_eq!(frame_alloc(&mut a), Some(PhysPageNum(101)));
    assert_eq!(frame_alloc(&mut a), None);
}

#[test]
fn pte_frame_is_aligned_and_skipped_frames_recycled() {
    let mut a = fresh(510, 1100);
    assert_eq!(alloc_pte_frame(&mut a), Some(PhysPageNum(512)));
    // the skipped frames 510 and 511 come back, the last skipped first
    assert_eq!(frame_alloc(&mut a), Some(PhysPageNum(511)));
    assert_eq!(frame_alloc(&mut a), Some(PhysPageNum(510)));
    assert_eq!(frame_alloc(&mut a), Some(PhysPageNum(513)));
    assert_eq!(alloc_pte_frame(&mut a), Some(PhysPageNum(1024)));
    assert_eq!(alloc_pte_frame(&mut a), None);
    // the frames after 1024 were all recycled on the failed search
    assert_eq!(frame_alloc(&mut a), Some(PhysPageNum(1099)));
}

#[test]
fn phys_mem_words_and_bytes() {
    let mut mem = PhysMem::new();
    assert_eq!(mem.read_word(PhysPageNum(7), 3), 0);
    mem.write_word(PhysPageNum(7), 3, 0x1122_3344_5566_7788);
    assert_eq!(mem.read_word(PhysPageNum(7), 3), 0x1122_3344_5566_7788);
    assert_eq!(mem.read_byte(PhysAddr(7 * 4096 + 24)), 0x88);
    assert_eq!(mem.read_byte(PhysAddr(7 * 4096 + 31)), 0x11);
    mem.write_byte(PhysAddr(7 * 4096 + 25), 0xab);
    assert_eq!(mem.read_word(PhysPageNum(7), 3), 0x1122_3344_5566_ab88);
    assert_eq!(mem.read_word(PhysPageNum(8), 3), 0);
    let bytes = PhysPageNum(7).get_bytes_array(&mem);
    assert_eq!(bytes.len(), 4096);
    assert_eq!(bytes[24], 0x88);
    assert_eq!(bytes[25], 0xab);
    assert_eq!(bytes[4095], 0);
    mem.copy_frame(PhysPageNum(7), PhysPageNum(9));
    assert_eq!(mem.read_word(PhysPageNum(9), 3), 0x1122_3344_5566_ab88);
    mem.zero_frame(PhysPageNum(7));
    assert_eq!(mem.read_word(PhysPageNum(7), 3), 0);
}

#[test]
fn pte_roundtrip() {
    let flags = PTEFlags::R().union(PTEFlags::W()).union(PTEFlags::V());
    let e = PageTableEntry::new(PhysPageNum(0x8_0123), flags);
    assert_eq!(e.bits, (0x8_0123 << 10) | 0x7);
    assert_eq!(e.ppn(), PhysPageNum(0x8_0123));
    assert_eq!(e.flags(), flags);
    assert!(e.is_valid());
    assert!(!PageTableEntry::empty().is_valid());
    assert_eq!(PageTableEntry::empty().bits, 0);
    assert!(flags.contains(PTEFlags::W()));
    assert!(!flags.contains(PTEFlags::X()));
    assert!(PTEFlags::empty().is_empty());
    assert_eq!(PTEFlags::all().bits(), 0xff);
    assert_eq!(flags.intersection(PTEFlags::W().union(PTEFlags::X())), PTEFlags::W());
    assert_eq!(PTEFlags::from_bits_truncate(0x1e).bits(), 0x1e);
}

#[test]
fn map_translate_unmap() {
    let mut mem = PhysMem::new();
    let mut a = fresh(0x80400, 0x81000);
    let mut pt = PageTable::new(&mut mem, &mut a);
    assert_eq!(pt.root_ppn, PhysPageNum(0x80400));
    let flags = PTEFlags::R().union(PTEFlags::W()).union(PTEFlags::U());
    pt.map(&mut mem, &mut a, VirtPageNum(0x10), PhysPageNum(0x12345), flags);
    let e = pt.translate(&mem, VirtPageNum(0x10)).unwrap();
    assert_eq!(e.ppn(), PhysPageNum(0x12345));
    assert_eq!(e.flags(), flags.union(PTEFlags::V()));
    assert!(pt.translate(&mem, VirtPageNum(0x11)).is_none());
    assert_eq!(
        pt.translate_va(&mem, VirtAddr(0x10 * 4096 + 0x123)),
        Some(PhysAddr(0x12345 * 4096 + 0x123))
    );
    // the two intermediate tables are 2 MiB aligned
    assert_eq!(pt.frames.len(), 3);
    assert_eq!(pt.frames[1], PhysPageNum(0x80600));
    assert_eq!(pt.frames[2], PhysPageNum(0x80800));
    // a second page in the same table needs no new table
    pt.map(&mut mem, &mut a, VirtPageNum(0x11), PhysPageNum(0x22222), flags);
    assert_eq!(pt.frames.len(), 3);
    assert_eq!(pt.translate(&mem, VirtPageNum(0x11)).unwrap().ppn(), PhysPageNum(0x22222));
    pt.unmap(&mut mem, &mut a, VirtPageNum(0x10));
    assert!(pt.translate(&mem, VirtPageNum(0x10)).is_none());
    assert!(pt.translate(&mem, VirtPageNum(0x11)).is_some());
}

#[test]
fn token_roundtrip() {
    let mut mem = PhysMem::new();
    let mut a = fresh(0x80400, 0x81000);
    let pt = PageTable::new(&mut mem, &mut a);
    assert_eq!(pt.satp(), (8u64 << 60) | 0x80400);
    assert_eq!(PageTable::from_token(pt.satp()).root_ppn, pt.root_ppn);
}

#[test]
fn huge_page_entry_in_level_one_table() {
    let mut mem = PhysMem::new();
    let mut a = fresh(0x80400, 0x81000);
    let mut pt = PageTable::new(&mut mem, &mut a);
    let rw = PTEFlags::R().union(PTEFlags::W());
    pt.map_huge(&mut mem, &mut a, VirtPageNum(0x80600), PhysPageNum(0x80600), rw);
    // the root entry 2 points to a new level-one table, whose entry 3 is the 2 MiB leaf
    let root_entry = mem.read_word(PhysPageNum(0x80400), 2);
    assert_eq!(root_entry, (0x80600 << 10) | 1);
    let leaf = mem.read_word(PhysPageNum(0x80600), 3);
    assert_eq!(leaf, ((0x80600u64 >> 18) << 28) | (((0x80600u64 >> 9) & 0x1ff) << 19) | 0x7);
}

#[test]
fn vpn_range_iterates_start_to_end() {
    let r = VpnRange::new(VirtPageNum(5), VirtPageNum(8));
    assert_eq!(r.get_start(), VirtPageNum(5));
    assert_eq!(r.get_end(), VirtPageNum(8));
    assert_eq!(r.iter(), vec![VirtPageNum(5), VirtPageNum(6), VirtPageNum(7)]);
    assert!(VpnRange::new(VirtPageNum(8), VirtPageNum(8)).iter().is_empty());
}

#[test]
fn free_frame_count() {
    let mut a = fresh(10, 13);
    assert!(a.has_free(3));
    assert!(!a.has_free(4));
    let p = frame_alloc(&mut a).unwrap();
    assert!(!a.has_free(3));
    frame_dealloc(&mut a, p);
    assert!(a.has_free(3));
    assert!(FrameAllocator::new().has_free(0));
}

#[test]
fn mapping_a_mapped_page_keeps_the_first_mapping() {
    let mut mem = PhysMem::new();
    let mut a = fresh(0x80400, 0x81000);
    let mut pt = PageTable::new(&mut mem, &mut a);
    let r = PTEFlags::R();
    pt.map(&mut mem, &mut a, VirtPageNum(0x10), PhysPageNum(0x111), r);
    pt.map(&mut mem, &mut a, VirtPageNum(0x10), PhysPageNum(0x222), PTEFlags::W());
    let e = pt.translate(&mem, VirtPageNum(0x10)).unwrap();
    assert_eq!(e.ppn(), PhysPageNum(0x111));
    assert_eq!(e.flags(), r.union(PTEFlags::V()));
}

#[test]
fn walk_reads_only_the_sv39_bits() {
    let mut mem = PhysMem::new();
    let mut a = fresh(0x80400, 0x81000);
    let mut pt = PageTable::new(&mut mem, &mut a);
    pt.map(&mut mem, &mut a, VirtPageNum(0x7ff_fffe), PhysPageNum(0x333), PTEFlags::R());
    let high = VirtPageNum(0xf_ffff_ffff_fffe);
    assert_eq!(pt.translate(&mem, high).unwrap().ppn(), PhysPageNum(0x333));
    assert_eq!(VirtPageNum::from(0xffff_ffff_ffff_e000u64), VirtPageNum(0x7ff_fffe));
}

#[test]
fn contiguous_frames_come_from_the_untouched_range() {
    let mut a = fresh(100, 110);
    let p = frame_alloc(&mut a).unwrap();
    frame_dealloc(&mut a, p);
    assert!(a.has_untouched(9));
    assert!(!a.has_untouched(10));
    assert_eq!(a.alloc_contiguous(4), Some(PhysPageNum(101)));
    assert_eq!(a.alloc_contiguous(6), None);
    assert_eq!(a.allocate(), Some(PhysPageNum(100)));
    assert_eq!(a.allocate(), Some(PhysPageNum(105)));
}
