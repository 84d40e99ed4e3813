//! Sv39 page-table entries and their flag bits.
use vstd::prelude::*;

use crate::address::PhysPageNum;
use crate::config::PPN_MASK;

verus! {

/// The eight flag bits of a page-table entry: V, R, W, X, U, G, A, D (bit 0 to bit 7).
#[derive(Clone, Copy, PartialEq, Eq, Structural, Debug)]
pub struct PTEFlags {
    bits: u8,
}

impl View for PTEFlags {
    type V = u8;

    closed spec fn view(&self) -> u8 {
        self.bits
    }
}

/// Bit of the valid flag.
pub const FLAG_V: u8 = 1;
/// Bit of the readable flag.
pub const FLAG_R: u8 = 2;
/// Bit of the writable flag.
pub const FLAG_W: u8 = 4;
/// Bit of the executable flag.
pub const FLAG_X: u8 = 8;
/// Bit of the user-accessible flag.
pub const FLAG_U: u8 = 16;
/// Bit of the global flag.
pub const FLAG_G: u8 = 32;
/// Bit of the accessed flag.
pub const FLAG_A: u8 = 64;
/// Bit of the dirty flag.
pub const FLAG_D: u8 = 128;

#[allow(non_snake_case)]
impl PTEFlags {
    /// The flags with exactly the given bits.
    pub fn from_bits_truncate(bits: u8) -> (r: PTEFlags)
        ensures
            r@ == bits,
    {
        PTEFlags { bits }
    }

    /// The raw bits.
    pub fn bits(&self) -> (r: u8)
        ensures
            r == self@,
    {
        self.bits
    }

    /// No flag set.
    pub fn empty() -> (r: PTEFlags)
        ensures
            r@ == 0,
    {
        PTEFlags { bits: 0 }
    }

    /// Every flag set.
    pub fn all() -> (r: PTEFlags)
        ensures
            r@ == 0xff,
    {
        PTEFlags { bits: 0xff }
    }

    /// Valid.
    pub fn V() -> (r: PTEFlags)
        ensures
            r@ == FLAG_V,
    {
        PTEFlags { bits: FLAG_V }
    }

    /// Readable.
    pub fn R() -> (r: PTEFlags)
        ensures
            r@ == FLAG_R,
    {
        PTEFlags { bits: FLAG_R }
    }

    /// Writable.
    pub fn W() -> (r: PTEFlags)
        ensures
            r@ == FLAG_W,
    {
        PTEFlags { bits: FLAG_W }
    }

    /// Executable.
    pub fn X() -> (r: PTEFlags)
        ensures
            r@ == FLAG_X,
    {
        PTEFlags { bits: FLAG_X }
    }

    /// Accessible from user mode.
    pub fn U() -> (r: PTEFlags)
        ensures
            r@ == FLAG_U,
    {
        PTEFlags { bits: FLAG_U }
    }

    /// Global mapping.
    pub fn G() -> (r: PTEFlags)
        ensures
            r@ == FLAG_G,
    {
        PTEFlags { bits: FLAG_G }
    }

    /// Accessed.
    pub fn A() -> (r: PTEFlags)
        ensures
            r@ == FLAG_A,
    {
        PTEFlags { bits: FLAG_A }
    }

    /// Dirty.
    pub fn D() -> (r: PTEFlags)
        ensures
            r@ == FLAG_D,
    {
        PTEFlags { bits: FLAG_D }
    }

    /// The flags set in either operand.
    pub fn union(self, other: PTEFlags) -> (r: PTEFlags)
        ensures
            r@ == self@ | other@,
    {
        PTEFlags { bits: self.bits | other.bits }
    }

    /// The flags set in both operands.
    pub fn intersection(self, other: PTEFlags) -> (r: PTEFlags)
        ensures
            r@ == self@ & other@,
    {
        PTEFlags { bits: self.bits & other.bits }
    }

    /// Whether every flag of `other` is set in `self`.
    pub fn contains(&self, other: PTEFlags) -> (r: bool)
        ensures
            r == (self@ & other@ == other@),
    {
        (self.bits & other.bits) == other.bits
    }

    /// Whether no flag is set.
    pub fn is_empty(&self) -> (r: bool)
        ensures
            r == (self@ == 0),
    {
        self.bits == 0
    }
}

/// A page-table entry: the physical page number in bits 53..10 and the flags in bits 7..0.
#[derive(Clone, Copy, PartialEq, Eq, Structural, Debug)]
pub struct PageTableEntry {
    pub bits: u64,
}

/// The bits of an entry made of a page number and flags.
pub open spec fn pte_bits(ppn: u64, flags: u8) -> u64 {
    (ppn << 10u64) | (flags as u64)
}

/// The physical page number held by the bits of an entry.
pub open spec fn pte_bits_ppn(bits: u64) -> u64 {
    (bits >> 10u64) & 0xfff_ffff_ffffu64
}

/// The flags held by the bits of an entry.
pub open spec fn pte_bits_flags(bits: u64) -> u8 {
    (bits & 0xffu64) as u8
}

/// Whether the bits of an entry have the valid flag.
pub open spec fn pte_bits_valid(bits: u64) -> bool {
    bits & 1u64 != 0
}

/// Whether an entry is valid.
pub open spec fn pte_valid(e: PageTableEntry) -> bool {
    pte_bits_valid(e.bits)
}

/// The physical page number that an entry points to.
pub open spec fn pte_ppn(e: PageTableEntry) -> u64 {
    pte_bits_ppn(e.bits)
}

/// An entry built from a page number below 2^44 gives back that page number and those
/// flags, and is valid exactly when the flags hold V.
pub proof fn law_pte_roundtrip(ppn: u64, flags: u8)
    ensures
        ppn < 0x1000_0000_0000 ==> pte_bits_ppn(pte_bits(ppn, flags)) == ppn,
        pte_bits_flags(pte_bits(ppn, flags)) == flags,
        pte_bits_valid(pte_bits(ppn, flags)) == (flags & 1u8 != 0),
{
    let f = flags as u64;
    assert(f < 256);
    assert(ppn < 0x1000_0000_0000 ==> ((ppn << 10u64) | f) >> 10u64 & 0xfff_ffff_ffffu64 == ppn)
        by (bit_vector)
        requires
            f < 256,
    ;
    assert(((ppn << 10u64) | f) & 0xffu64 == f) by (bit_vector)
        requires
            f < 256,
    ;
    assert((((ppn << 10u64) | f) & 1u64 != 0) == (f & 1u64 != 0)) by (bit_vector)
        requires
            f < 256,
    ;
    assert((f & 1u64 != 0) == (flags & 1u8 != 0)) by (bit_vector)
        requires
            f == flags as u64,
    ;
}

/// The page number in the bits of an entry fits 44 bits.
pub proof fn lemma_pte_ppn_bound(bits: u64)
    ensures
        pte_bits_ppn(bits) < 0x1000_0000_0000,
{
    assert((bits >> 10u64) & 0xfff_ffff_ffffu64 < 0x1000_0000_0000) by (bit_vector);
}

/// The empty entry is not valid and points to page 0.
pub proof fn lemma_zero_pte()
    ensures
        !pte_bits_valid(0),
        pte_bits_ppn(0) == 0,
{
    assert(0u64 & 1u64 == 0 && (0u64 >> 10u64) & 0xfff_ffff_ffffu64 == 0) by (bit_vector);
}

impl PageTableEntry {
    /// The entry pointing to `ppn` with `flags`.
    pub fn new(ppn: PhysPageNum, flags: PTEFlags) -> (r: PageTableEntry)
        ensures
            r.bits == pte_bits(ppn.0, flags@),
    {
        PageTableEntry { bits: (ppn.0 << 10) | (flags.bits() as u64) }
    }

    /// The entry with no bit set.
    pub fn empty() -> (r: PageTableEntry)
        ensures
            r.bits == 0,
            !pte_valid(r),
    {
        proof {
            lemma_zero_pte();
        }
        PageTableEntry { bits: 0 }
    }

    /// The physical page number this entry points to (44 bits).
    pub fn ppn(&self) -> (r: PhysPageNum)
        ensures
            r.0 == pte_ppn(*self),
            r.0 < 0x1000_0000_0000,
    {
        proof {
            lemma_pte_ppn_bound(self.bits);
        }
        PhysPageNum((self.bits >> 10) & PPN_MASK)
    }

    /// The flags of this entry.
    pub fn flags(&self) -> (r: PTEFlags)
        ensures
            r@ == pte_bits_flags(self.bits),
    {
        let b = self.bits;
        assert(b as u8 == (b & 0xffu64) as u8) by (bit_vector);
        PTEFlags::from_bits_truncate(self.bits as u8)
    }

    /// Whether the valid flag is set.
    pub fn is_valid(&self) -> (r: bool)
        ensures
            r == pte_valid(*self),
    {
        let f = self.flags();
        let b = self.bits;
        let fb = f.bits();
        assert(((b & 0xffu64) as u8 & 1u8 != 0) == (b & 1u64 != 0)) by (bit_vector);
        f.intersection(PTEFlags::V()) != PTEFlags::empty()
    }
}

} // verus!
