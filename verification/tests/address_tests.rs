use rcore_os::address::{PhysAddr, PhysPageNum, VirtAddr, VirtPageNum};

#[test]
fn floor_ceil_offset() {
    let va = VirtAddr(0x1234);
    assert_eq!(va.floor(), VirtPageNum(1));
    assert_eq!(va.ceil(), VirtPageNum(2));
    assert_eq!(va.page_offset(), 0x234);
    assert!(!va.aligned());
    assert!(VirtAddr(0x2000).aligned());
    assert_eq!(VirtAddr(0x2000).ceil(), VirtPageNum(2));
    let pa = PhysAddr(0x8000_0fff);
    assert_eq!(pa.floor(), PhysPageNum(0x80000));
    assert_eq!(pa.ceil(), PhysPageNum(0x80001));
    assert_eq!(pa.page_offset(), 0xfff);
}

#[test]
fn vpn_indexes() {
    let vpn = VirtPageNum((3 << 18) | (5 << 9) | 7);
    assert_eq!(vpn.indexes(), [3, 5, 7]);
    let top = VirtPageNum::from(0xffff_ffff_ffff_f000u64);
    assert_eq!(top, VirtPageNum(0x7ff_ffff));
    assert_eq!(top.indexes(), [511, 511, 511]);
}
