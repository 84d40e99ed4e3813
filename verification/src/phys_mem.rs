//! Physical memory, as the kernel sees it through its identity mapping: frames of 512
//! machine words (4096 bytes, little-endian). A frame that was never written reads as
//! zeros.
use vstd::prelude::*;
use vstd::hash_map::HashMapWithView;

use crate::address::{PhysAddr, PhysPageNum};

verus! {

/// A frame of zeros.
pub open spec fn zero_frame() -> Seq<u64> {
    Seq::new(512, |i: int| 0u64)
}

/// The byte at offset `k` (0..8) of a little-endian word.
pub open spec fn word_byte(w: u64, k: u64) -> u8 {
    ((w >> (8 * k)) & 0xffu64) as u8
}

/// The word `w` with its byte `k` (0..8) replaced by `b`.
pub open spec fn word_with_byte(w: u64, k: u64, b: u8) -> u64 {
    (w & !(0xffu64 << (8 * k))) | ((b as u64) << (8 * k))
}

proof fn lemma_word_with_byte(w: u64, k: u64, b: u8, j: u64)
    requires
        k < 8,
        j < 8,
    ensures
        word_byte(word_with_byte(w, k, b), k) == b,
        j != k ==> word_byte(word_with_byte(w, k, b), j) == word_byte(w, j),
{
    let bb = b as u64;
    assert(bb < 256);
    assert((((w & !(0xffu64 << (8 * k))) | (bb << (8 * k))) >> (8 * k)) & 0xffu64 == bb)
        by (bit_vector)
        requires
            k < 8,
            bb < 256,
    ;
    assert(j != k ==> (((w & !(0xffu64 << (8 * k))) | (bb << (8 * k))) >> (8 * j)) & 0xffu64 == (w
        >> (8 * j)) & 0xffu64) by (bit_vector)
        requires
            k < 8,
            j < 8,
            bb < 256,
    ;
}

/// An address is its frame, its word inside the frame and its byte inside the word.
proof fn lemma_addr_parts(a: u64)
    ensures
        a == (a / 4096) * 4096 + ((a % 4096) / 8) * 8 + a % 8,
{
}

/// The physical memory of the machine.
pub struct PhysMem {
    frames: HashMapWithView<u64, Vec<u64>>,
}

impl PhysMem {
    /// The 512 words of frame `p`.
    pub closed spec fn frame(&self, p: u64) -> Seq<u64> {
        if self.frames@.contains_key(p) && self.frames@[p]@.len() == 512 {
            self.frames@[p]@
        } else {
            zero_frame()
        }
    }

    /// Word `i` (0..512) of frame `p`.
    pub open spec fn word(&self, p: u64, i: int) -> u64 {
        self.frame(p)[i]
    }

    /// The byte at physical address `a`.
    pub open spec fn byte(&self, a: u64) -> u8 {
        word_byte(self.word(a / 4096, ((a % 4096) / 8) as int), a % 8)
    }

    /// Every frame holds 512 words.
    pub proof fn lemma_frame_len(&self, p: u64)
        ensures
            self.frame(p).len() == 512,
    {
    }

    /// Memory whose every frame reads as zeros.
    pub fn new() -> (r: PhysMem)
        ensures
            forall|p: u64| #[trigger] r.frame(p) == zero_frame(),
    {
        broadcast use vstd::std_specs::hash::group_hash_axioms;

        PhysMem { frames: HashMapWithView::new() }
    }

    /// Reads word `i` of frame `ppn`.
    pub fn read_word(&self, ppn: PhysPageNum, i: usize) -> (r: u64)
        requires
            i < 512,
        ensures
            r == self.word(ppn.0, i as int),
    {
        match self.frames.get(&ppn.0) {
            Some(f) => if f.len() == 512 {
                f[i]
            } else {
                0
            },
            None => 0,
        }
    }

    /// Writes word `i` of frame `ppn`.
    pub fn write_word(&mut self, ppn: PhysPageNum, i: usize, v: u64)
        requires
            i < 512,
        ensures
            final(self).frame(ppn.0) == old(self).frame(ppn.0).update(i as int, v),
            forall|p: u64| p != ppn.0 ==> #[trigger] final(self).frame(p) == old(self).frame(p),
    {
        let f = self.frames.remove(&ppn.0);
        let mut words = match f {
            Some(w) => if w.len() == 512 {
                w
            } else {
                zeros()
            },
            None => zeros(),
        };
        words.set(i, v);
        self.frames.insert(ppn.0, words);
    }

    /// Fills frame `ppn` with zeros.
    pub fn zero_frame(&mut self, ppn: PhysPageNum)
        ensures
            final(self).frame(ppn.0) == zero_frame(),
            forall|p: u64| p != ppn.0 ==> #[trigger] final(self).frame(p) == old(self).frame(p),
    {
        self.frames.remove(&ppn.0);
    }

    /// Copies frame `src` over frame `dst`.
    pub fn copy_frame(&mut self, src: PhysPageNum, dst: PhysPageNum)
        ensures
            final(self).frame(dst.0) == old(self).frame(src.0),
            forall|p: u64| p != dst.0 ==> #[trigger] final(self).frame(p) == old(self).frame(p),
    {
        let words = match self.frames.get(&src.0) {
            Some(w) => if w.len() == 512 {
                w.clone()
            } else {
                zeros()
            },
            None => zeros(),
        };
        self.frames.insert(dst.0, words);
    }

    /// Reads the byte at physical address `pa`.
    pub fn read_byte(&self, pa: PhysAddr) -> (r: u8)
        ensures
            r == self.byte(pa.0),
    {
        let w = self.read_word(PhysPageNum(pa.0 / 4096), ((pa.0 % 4096) / 8) as usize);
        let k = pa.0 % 8;
        ((w >> (8 * k)) & 0xff) as u8
    }

    /// Writes the byte at physical address `pa`.
    pub fn write_byte(&mut self, pa: PhysAddr, b: u8)
        ensures
            final(self).byte(pa.0) == b,
            forall|a: u64| a != pa.0 ==> #[trigger] final(self).byte(a) == old(self).byte(a),
            forall|p: u64| p != pa.0 / 4096 ==> #[trigger] final(self).frame(p) == old(self).frame(p),
    {
        let ppn = PhysPageNum(pa.0 / 4096);
        let i = ((pa.0 % 4096) / 8) as usize;
        let k = pa.0 % 8;
        let w = self.read_word(ppn, i);
        let nw = (w & !(0xff << (8 * k))) | ((b as u64) << (8 * k));
        self.write_word(ppn, i, nw);
        proof {
            assert(nw == word_with_byte(w, k, b));
            lemma_word_with_byte(w, k, b, k);
            assert forall|a: u64| a != pa.0 implies #[trigger] self.byte(a) == old(self).byte(a) by {
                if a / 4096 == pa.0 / 4096 && (a % 4096) / 8 == (pa.0 % 4096) / 8 {
                    assert(a % 8 != k) by {
                        lemma_addr_parts(a);
                        lemma_addr_parts(pa.0);
                    }
                    lemma_word_with_byte(w, k, b, a % 8);
                }
            }
        }
    }
}

fn zeros() -> (r: Vec<u64>)
    ensures
        r@ == zero_frame(),
{
    let mut v: Vec<u64> = Vec::new();
    let mut i: usize = 0;
    while i < 512
        invariant
            i <= 512,
            v@.len() == i,
            forall|j: int| 0 <= j < i ==> v@[j] == 0,
        decreases 512 - i,
    {
        v.push(0);
        i = i + 1;
    }
    assert(v@ =~= zero_frame());
    v
}

impl PhysPageNum {
    /// The 4096 bytes of the frame.
    pub fn get_bytes_array(&self, mem: &PhysMem) -> (r: Vec<u8>)
        requires
            self.0 < 0x10_0000_0000_0000,
        ensures
            r@.len() == 4096,
            forall|i: int| 0 <= i < 4096 ==> #[trigger] r@[i] == mem.byte((self.0 * 4096 + i) as u64),
    {
        let base = self.0 * 4096;
        let mut v: Vec<u8> = Vec::with_capacity(4096);
        let mut i: u64 = 0;
        while i < 4096
            invariant
                base == self.0 * 4096,
                self.0 < 0x10_0000_0000_0000,
                i <= 4096,
                v@.len() == i,
                forall|j: int| 0 <= j < i ==> #[trigger] v@[j] == mem.byte((self.0 * 4096 + j) as u64),
            decreases 4096 - i,
        {
            v.push(mem.read_byte(PhysAddr(base + i)));
            i = i + 1;
        }
        v
    }
}

} // verus!
