use rcore_os::address::{PhysAddr, PhysPageNum, VirtAddr, VirtPageNum};
use rcore_os::frame::FrameAllocator;
use rcore_os::map_area::{MapArea, MapType};
use rcore_os::memory_set::MemorySet;
use rcore_os::page_table::{translated_byte_buffer, translated_refmut, translated_str};
use rcore_os::phys_mem::PhysMem;
use rcore_os::pte::PTEFlags;
use rcore_os::syscall::{sys_read, NO_CHAR};

fn user_space() -> (PhysMem, FrameAllocator, MemorySet) {
    let mut mem = PhysMem::new();
    let mut alloc = FrameAllocator::new();
    alloc.init(PhysPageNum(0x80400), PhysPageNum(0x81000));
    let mut ms = MemorySet::new_bare(&mut mem, &mut alloc);
    let perm = PTEFlags::R().union(PTEFlags::W()).union(PTEFlags::U());
    ms.insert_framed_area(&mut mem, &mut alloc, VirtAddr(0x1000), VirtAddr(0x3000), perm);
    (mem, alloc, ms)
}

#[test]
fn map_area_shapes() {
    let rw = PTEFlags::R().union(PTEFlags::W());
    let a = MapArea::new(VirtAddr(0x1800), VirtAddr(0x3001), MapType::Framed, rw);
    assert_eq!(a.vpn_range.get_start(), VirtPageNum(1));
    assert_eq!(a.vpn_range.get_end(), VirtPageNum(4));
    assert_eq!(a.start_va, VirtAddr(0x1800));
    assert!(a.data_frames.is_empty());
    let one = MapArea::new_one_page(VirtAddr(0x5000), PhysPageNum(9), MapType::Fixed(PhysPageNum(9)), rw);
    assert_eq!(one.vpn_range.get_start(), VirtPageNum(5));
    assert_eq!(one.vpn_range.get_end(), VirtPageNum(6));
    assert_eq!(one.data_frames, vec![PhysPageNum(9)]);
    let copy = MapArea::from_another(&one);
    assert_eq!(copy.map_type, MapType::Framed);
    assert_eq!(copy.vpn_range.get_start(), VirtPageNum(5));
    assert_eq!(copy.map_perm, rw);
    assert!(copy.data_frames.is_empty());
}

#[test]
fn framed_area_gets_distinct_frames() {
    let (mem, _alloc, ms) = user_space();
    assert_eq!(ms.areas.len(), 1);
    let f1 = ms.translate(&mem, VirtPageNum(1)).unwrap();
    let f2 = ms.translate(&mem, VirtPageNum(2)).unwrap();
    assert_ne!(f1, f2);
    assert_eq!(ms.areas[0].data_frames, vec![f1, f2]);
    assert!(ms.translate(&mem, VirtPageNum(3)).is_none());
}

#[test]
fn user_buffers_split_at_page_boundaries() {
    let (mut mem, _alloc, ms) = user_space();
    let token = ms.token();
    let f1 = ms.translate(&mem, VirtPageNum(1)).unwrap();
    let f2 = ms.translate(&mem, VirtPageNum(2)).unwrap();
    let chunks = translated_byte_buffer(&mem, token, 0x1ffd, 6);
    assert_eq!(chunks, vec![(PhysAddr(f1.0 * 4096 + 0xffd), 3), (PhysAddr(f2.0 * 4096), 3)]);
    let text = b"hello\0";
    let mut k = 0;
    for (pa, len) in chunks {
        for i in 0..len {
            mem.write_byte(PhysAddr(pa.0 + i), text[k]);
            k += 1;
        }
    }
    assert_eq!(translated_str(&mem, token, 0x1ffd), "hello");
    assert_eq!(translated_str(&mem, token, 0x2000), "lo");
    assert_eq!(translated_refmut(&mem, token, 0x1008), PhysAddr(f1.0 * 4096 + 8));
}

#[test]
fn read_one_char_into_user_buffer() {
    let (mut mem, _alloc, ms) = user_space();
    let token = ms.token();
    let f1 = ms.translate(&mem, VirtPageNum(1)).unwrap();
    assert_eq!(sys_read(&mut mem, token, 0, 0x1010, 1, NO_CHAR), None);
    assert_eq!(mem.read_byte(PhysAddr(f1.0 * 4096 + 0x10)), 0);
    assert_eq!(sys_read(&mut mem, token, 0, 0x1010, 1, b'x' as u64), Some(1));
    assert_eq!(mem.read_byte(PhysAddr(f1.0 * 4096 + 0x10)), b'x');
    // any value but 0 is a character: its low byte is stored
    assert_eq!(sys_read(&mut mem, token, 0, 0x1011, 1, u64::MAX), Some(1));
    assert_eq!(mem.read_byte(PhysAddr(f1.0 * 4096 + 0x11)), 0xff);
}

#[test]
fn remove_area_unmaps_its_pages() {
    let (mut mem, mut alloc, mut ms) = user_space();
    ms.remove_area_with_start_vpn(&mut mem, &mut alloc, VirtPageNum(7));
    assert_eq!(ms.areas.len(), 1);
    ms.remove_area_with_start_vpn(&mut mem, &mut alloc, VirtPageNum(1));
    assert!(ms.areas.is_empty());
    assert!(ms.translate(&mem, VirtPageNum(1)).is_none());
    assert!(ms.translate(&mem, VirtPageNum(2)).is_none());
}

#[test]
fn recycle_gives_frames_back_and_forgets_areas() {
    let (mem, mut alloc, mut ms) = user_space();
    let f1 = ms.translate(&mem, VirtPageNum(1)).unwrap();
    let f2 = ms.translate(&mem, VirtPageNum(2)).unwrap();
    let root = ms.page_table.root_ppn;
    ms.recycle_data_pages(&mut alloc);
    assert!(ms.areas.is_empty());
    assert_eq!(ms.page_table.root_ppn, root);
    assert_eq!(alloc.allocate(), Some(f2));
    assert_eq!(alloc.allocate(), Some(f1));
}

#[test]
fn push_copies_data_to_area_start() {
    let mut mem = PhysMem::new();
    let mut alloc = FrameAllocator::new();
    alloc.init(PhysPageNum(0x80400), PhysPageNum(0x81000));
    let mut ms = MemorySet::new_bare(&mut mem, &mut alloc);
    let perm = PTEFlags::R().union(PTEFlags::U());
    let data: Vec<u8> = (0..5000u32).map(|i| (i % 251) as u8).collect();
    ms.push(&mut mem, &mut alloc, MapArea::new(VirtAddr(0x4000), VirtAddr(0x6000), MapType::Framed, perm), Some(&data));
    let f4 = ms.translate(&mem, VirtPageNum(4)).unwrap();
    let f5 = ms.translate(&mem, VirtPageNum(5)).unwrap();
    assert_eq!(mem.read_byte(PhysAddr(f4.0 * 4096 + 100)), 100);
    assert_eq!(mem.read_byte(PhysAddr(f5.0 * 4096 + 10)), ((4096 + 10) % 251) as u8);
    assert_eq!(mem.read_byte(PhysAddr(f5.0 * 4096 + 904)), 0);
}

#[test]
fn area_map_then_unmap_restores_the_table() {
    let (mut mem, mut alloc, mut ms) = user_space();
    let f1 = ms.translate(&mem, VirtPageNum(1)).unwrap();
    let perm = PTEFlags::R().union(PTEFlags::W()).union(PTEFlags::U());
    let mut area = MapArea::new(VirtAddr(0x5000), VirtAddr(0x7000), MapType::Framed, perm);
    area.map(&mut ms.page_table, &mut mem, &mut alloc);
    assert!(ms.translate(&mem, VirtPageNum(5)).is_some());
    assert!(ms.translate(&mem, VirtPageNum(6)).is_some());
    area.unmap(&mut ms.page_table, &mut mem, &mut alloc);
    assert!(ms.translate(&mem, VirtPageNum(5)).is_none());
    assert!(ms.translate(&mem, VirtPageNum(6)).is_none());
    assert_eq!(ms.translate(&mem, VirtPageNum(1)), Some(f1));
    assert!(ms.translate(&mem, VirtPageNum(7)).is_none());
}

#[test]
fn push_trampoline_matches_map_trampoline() {
    let mut mem = PhysMem::new();
    let mut alloc = FrameAllocator::new();
    alloc.init(PhysPageNum(0x80400), PhysPageNum(0x81000));
    let mut a = MemorySet::new_bare(&mut mem, &mut alloc);
    let mut b = MemorySet::new_bare(&mut mem, &mut alloc);
    let va = 0x3f_ffff_f000u64;
    a.map_trampoline(&mut mem, &mut alloc, PhysPageNum(0x80200), va);
    b.push_trampoline(&mut mem, &mut alloc, PhysPageNum(0x80200), va);
    let vpn = VirtPageNum(va / 4096);
    assert_eq!(a.translate(&mem, vpn), Some(PhysPageNum(0x80200)));
    assert_eq!(a.translate(&mem, vpn), b.translate(&mem, vpn));
    assert_eq!(a.areas.len(), 1);
    assert_eq!(b.areas.len(), 1);
    assert_eq!(a.areas[0].vpn_range, b.areas[0].vpn_range);
    assert_eq!(a.areas[0].start_va, b.areas[0].start_va);
    assert_eq!(a.areas[0].map_type, b.areas[0].map_type);
    assert_eq!(a.areas[0].map_perm, b.areas[0].map_perm);
    assert_eq!(a.areas[0].data_frames, b.areas[0].data_frames);
}
