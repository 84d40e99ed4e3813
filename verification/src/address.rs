//! Physical and virtual addresses and page numbers of Sv39.
use vstd::prelude::*;
use vstd::std_specs::convert::FromSpecImpl;

use crate::config::{PAGE_SIZE, PAGE_SIZE_BITS, VPN_MASK};

verus! {

/// A physical address.
#[derive(Clone, Copy, PartialEq, Eq, Structural, Debug)]
pub struct PhysAddr(pub u64);

/// A virtual address.
#[derive(Clone, Copy, PartialEq, Eq, Structural, Debug)]
pub struct VirtAddr(pub u64);

/// A physical page number.
#[derive(Clone, Copy, PartialEq, Eq, Structural, Debug)]
pub struct PhysPageNum(pub u64);

/// A virtual page number.
#[derive(Clone, Copy, PartialEq, Eq, Structural, Debug)]
pub struct VirtPageNum(pub u64);

/// The number of pages needed to cover `x` bytes, rounded up.
pub open spec fn ceil_pages(x: int) -> int {
    (x + 4095) / 4096
}

/// Index into the root (level-2) page table of a virtual page number.
pub open spec fn vpn_index0(vpn: u64) -> u64 {
    (vpn >> 18u64) & 0x1ffu64
}

/// Index into the level-1 page table of a virtual page number.
pub open spec fn vpn_index1(vpn: u64) -> u64 {
    (vpn >> 9u64) & 0x1ffu64
}

/// Index into the level-0 (leaf) page table of a virtual page number.
pub open spec fn vpn_index2(vpn: u64) -> u64 {
    vpn & 0x1ffu64
}

/// The Sv39 part of a virtual page number: its low 27 bits.
pub open spec fn vpn_sv39(vpn: u64) -> u64 {
    vpn & 0x7ff_ffffu64
}

/// `x & 0xfff` is the offset of `x` inside its page.
pub proof fn lemma_page_offset_mask(x: u64)
    ensures
        x & 0xfffu64 == x % 4096,
        x & 0xfffu64 < 4096,
{
    assert(x & 0xfffu64 == x % 4096 && x & 0xfffu64 < 4096) by (bit_vector);
}

/// Shifting a page number left by 12 multiplies it by the page size, modulo 2^64.
pub proof fn lemma_shl12(x: u64)
    ensures
        x << 12u64 == ((x as int) * 4096) % 0x1_0000_0000_0000_0000,
        x < 0x10_0000_0000_0000 ==> x << 12u64 == (x as int) * 4096,
{
    assert(x << 12u64 == ((x as nat) * 4096) % 0x1_0000_0000_0000_0000 && (x < 0x10_0000_0000_0000 ==> x << 12u64 == (x as nat)
        * 4096)) by (bit_vector);
}

/// Shifting an address right by 12 gives its page number.
pub proof fn lemma_shr12(x: u64)
    ensures
        x >> 12u64 == x / 4096,
{
    assert(x >> 12u64 == x / 4096) by (bit_vector);
}

/// The three indexes of a virtual page number are below 512 and together give back its
/// Sv39 part.
pub proof fn lemma_vpn_indexes(vpn: u64)
    ensures
        vpn_index0(vpn) < 512,
        vpn_index1(vpn) < 512,
        vpn_index2(vpn) < 512,
        vpn_sv39(vpn) == vpn_index0(vpn) * 262144 + vpn_index1(vpn) * 512 + vpn_index2(vpn),
        vpn_sv39(vpn) == vpn % 0x800_0000,
{
    assert((vpn >> 18u64) & 0x1ffu64 < 512 && (vpn >> 9u64) & 0x1ffu64 < 512 && vpn & 0x1ffu64 < 512 && vpn & 0x7ff_ffffu64 == ((
    vpn >> 18u64) & 0x1ffu64) * 262144 + ((vpn >> 9u64) & 0x1ffu64) * 512 + (vpn & 0x1ffu64) && vpn & 0x7ff_ffffu64 == vpn
        % 0x800_0000) by (bit_vector);
}

/// The Sv39 slots of the two highest pages: the trampoline page and the trap-context page
/// below it.
pub proof fn lemma_high_pages()
    ensures
        vpn_sv39(0xf_ffff_ffff_ffffu64) == 0x7ff_ffff,
        vpn_sv39(0x7ff_ffffu64) == 0x7ff_ffff,
        vpn_sv39(0xf_ffff_ffff_fffeu64) == 0x7ff_fffe,
        vpn_sv39(0x7ff_fffeu64) == 0x7ff_fffe,
{
    assert(0xf_ffff_ffff_ffffu64 & 0x7ff_ffffu64 == 0x7ff_ffffu64 && 0x7ff_ffffu64 & 0x7ff_ffffu64 == 0x7ff_ffffu64
        && 0xf_ffff_ffff_fffeu64 & 0x7ff_ffffu64 == 0x7ff_fffeu64 && 0x7ff_fffeu64 & 0x7ff_ffffu64 == 0x7ff_fffeu64)
        by (bit_vector);
}

/// Two virtual page numbers have the same three indexes exactly when their Sv39 parts agree.
pub proof fn lemma_vpn_indexes_eq(a: u64, b: u64)
    ensures
        (vpn_index0(a) == vpn_index0(b) && vpn_index1(a) == vpn_index1(b) && vpn_index2(a)
            == vpn_index2(b)) <==> vpn_sv39(a) == vpn_sv39(b),
{
    lemma_vpn_indexes(a);
    lemma_vpn_indexes(b);
}

impl PhysAddr {
    /// The page that holds this address.
    pub fn floor(&self) -> (r: PhysPageNum)
        ensures
            r.0 == self.0 / 4096,
    {
        PhysPageNum(self.0 / PAGE_SIZE)
    }

    /// The first page that starts at or after this address.
    pub fn ceil(&self) -> (r: PhysPageNum)
        requires
            self.0 + 4095 <= u64::MAX,
        ensures
            r.0 == ceil_pages(self.0 as int),
    {
        PhysPageNum((self.0 + (PAGE_SIZE - 1)) / PAGE_SIZE)
    }

    /// The offset of this address inside its page.
    pub fn page_offset(&self) -> (r: u64)
        ensures
            r == self.0 % 4096,
    {
        proof {
            lemma_page_offset_mask(self.0);
        }
        self.0 & (PAGE_SIZE - 1)
    }
}

impl VirtAddr {
    /// The page that holds this address.
    pub fn floor(&self) -> (r: VirtPageNum)
        ensures
            r.0 == self.0 / 4096,
    {
        VirtPageNum(self.0 / PAGE_SIZE)
    }

    /// The first page that starts at or after this address.
    pub fn ceil(&self) -> (r: VirtPageNum)
        requires
            self.0 + 4095 <= u64::MAX,
        ensures
            r.0 == ceil_pages(self.0 as int),
    {
        VirtPageNum((self.0 + (PAGE_SIZE - 1)) / PAGE_SIZE)
    }

    /// The offset of this address inside its page.
    pub fn page_offset(&self) -> (r: u64)
        ensures
            r == self.0 % 4096,
    {
        proof {
            lemma_page_offset_mask(self.0);
        }
        self.0 & (PAGE_SIZE - 1)
    }

    /// Whether this address is the start of a page.
    pub fn aligned(&self) -> (r: bool)
        ensures
            r == (self.0 % 4096 == 0),
    {
        self.page_offset() == 0
    }
}

impl VirtPageNum {
    /// The indexes of the page-table walk for this page, root first:
    /// `[VPN[2], VPN[1], VPN[0]]`, nine bits each.
    pub fn indexes(&self) -> (idx: [u64; 3])
        ensures
            idx@.len() == 3,
            idx@[0] == vpn_index0(self.0),
            idx@[1] == vpn_index1(self.0),
            idx@[2] == vpn_index2(self.0),
    {
        let mut vpn = self.0;
        let mut idx: [u64; 3] = [0; 3];
        let mut i: usize = 3;
        while i > 0
            invariant
                i <= 3,
                idx@.len() == 3,
                i == 3 ==> vpn == self.0,
                i == 2 ==> vpn == self.0 >> 9u64,
                i == 1 ==> vpn == self.0 >> 18u64,
                i <= 2 ==> idx@[2] == vpn_index2(self.0),
                i <= 1 ==> idx@[1] == vpn_index1(self.0),
                i == 0 ==> idx@[0] == vpn_index0(self.0),
            decreases i,
        {
            i = i - 1;
            let ghost old_vpn = vpn;
            idx[i] = vpn & 0x1ff;
            vpn = vpn >> 9;
            proof {
                let s = self.0;
                if i == 2 {
                    assert(vpn == s >> 9u64) by (bit_vector)
                        requires
                            old_vpn == s,
                            vpn == old_vpn >> 9u64,
                    ;
                } else if i == 1 {
                    assert(old_vpn == s >> 9u64);
                    assert((old_vpn & 0x1ffu64) == vpn_index1(s));
                    assert(vpn == s >> 18u64) by (bit_vector)
                        requires
                            old_vpn == s >> 9u64,
                            vpn == old_vpn >> 9u64,
                    ;
                } else {
                    assert(old_vpn == s >> 18u64);
                    assert((old_vpn & 0x1ffu64) == vpn_index0(s));
                }
            }
        }
        idx
    }
}

impl PhysPageNum {
    /// The page number of a page-aligned physical address.
    pub fn from_aligned(pa: PhysAddr) -> (r: PhysPageNum)
        requires
            pa.0 % 4096 == 0,
        ensures
            r.0 == pa.0 / 4096,
    {
        pa.floor()
    }

    /// The address of the first byte of this page (wrapping as a shift does).
    pub fn addr(&self) -> (r: PhysAddr)
        ensures
            r.0 == ((self.0 as int) * 4096) % 0x1_0000_0000_0000_0000,
    {
        proof {
            lemma_shl12(self.0);
        }
        PhysAddr(self.0 << PAGE_SIZE_BITS)
    }
}

impl VirtPageNum {
    /// The page number of a page-aligned virtual address.
    pub fn from_aligned(va: VirtAddr) -> (r: VirtPageNum)
        requires
            va.0 % 4096 == 0,
        ensures
            r.0 == va.0 / 4096,
    {
        va.floor()
    }

    /// The page number of an address, cut to the 27 bits of an Sv39 virtual page number;
    /// the sign extension of bits 63..39 is left to the hardware.
    pub fn from_addr_bits(v: u64) -> (r: VirtPageNum)
        ensures
            r.0 == (v / 4096) % 0x800_0000,
    {
        proof {
            assert((v >> 12u64) & 0x7ff_ffffu64 == (v / 4096) % 0x800_0000) by (bit_vector);
        }
        VirtPageNum((v >> PAGE_SIZE_BITS) & VPN_MASK)
    }

    /// The address of the first byte of this page (wrapping as a shift does).
    pub fn addr(&self) -> (r: VirtAddr)
        ensures
            r.0 == ((self.0 as int) * 4096) % 0x1_0000_0000_0000_0000,
    {
        proof {
            lemma_shl12(self.0);
        }
        VirtAddr(self.0 << PAGE_SIZE_BITS)
    }
}

impl From<u64> for VirtPageNum {
    fn from(v: u64) -> (r: VirtPageNum) {
        VirtPageNum::from_addr_bits(v)
    }
}

impl FromSpecImpl<u64> for VirtPageNum {
    open spec fn obeys_from_spec() -> bool {
        true
    }

    open spec fn from_spec(v: u64) -> VirtPageNum {
        VirtPageNum(((v / 4096) % 0x800_0000) as u64)
    }
}

impl From<u64> for VirtAddr {
    fn from(v: u64) -> (r: VirtAddr) {
        VirtAddr(v)
    }
}

impl FromSpecImpl<u64> for VirtAddr {
    open spec fn obeys_from_spec() -> bool {
        true
    }

    open spec fn from_spec(v: u64) -> VirtAddr {
        VirtAddr(v)
    }
}

impl From<u64> for PhysAddr {
    fn from(v: u64) -> (r: PhysAddr) {
        PhysAddr(v)
    }
}

impl FromSpecImpl<u64> for PhysAddr {
    open spec fn obeys_from_spec() -> bool {
        true
    }

    open spec fn from_spec(v: u64) -> PhysAddr {
        PhysAddr(v)
    }
}

impl From<u64> for PhysPageNum {
    fn from(v: u64) -> (r: PhysPageNum) {
        PhysPageNum(v)
    }
}

impl FromSpecImpl<u64> for PhysPageNum {
    open spec fn obeys_from_spec() -> bool {
        true
    }

    open spec fn from_spec(v: u64) -> PhysPageNum {
        PhysPageNum(v)
    }
}

impl From<PhysPageNum> for PhysAddr {
    fn from(v: PhysPageNum) -> (r: PhysAddr) {
        v.addr()
    }
}

impl FromSpecImpl<PhysPageNum> for PhysAddr {
    open spec fn obeys_from_spec() -> bool {
        true
    }

    open spec fn from_spec(v: PhysPageNum) -> PhysAddr {
        PhysAddr((((v.0 as int) * 4096) % 0x1_0000_0000_0000_0000) as u64)
    }
}

impl From<VirtPageNum> for VirtAddr {
    fn from(v: VirtPageNum) -> (r: VirtAddr) {
        v.addr()
    }
}

impl FromSpecImpl<VirtPageNum> for VirtAddr {
    open spec fn obeys_from_spec() -> bool {
        true
    }

    open spec fn from_spec(v: VirtPageNum) -> VirtAddr {
        VirtAddr((((v.0 as int) * 4096) % 0x1_0000_0000_0000_0000) as u64)
    }
}

/// A page-aligned address is its page number times the page size, and any address is
/// the start of its page plus its page offset.
pub proof fn law_floor_offset(a: u64)
    ensures
        (a / 4096) * 4096 + a % 4096 == a,
        a % 4096 == 0 ==> ceil_pages(a as int) == a / 4096,
        a % 4096 != 0 ==> ceil_pages(a as int) == a / 4096 + 1,
{
}

} // verus!
