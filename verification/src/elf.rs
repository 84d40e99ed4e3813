//! Reading the parts of an ELF64 little-endian executable that loading needs: the entry
//! point and the program headers.
use vstd::prelude::*;

verus! {

/// The little-endian value of the 2 bytes at `off`.
pub open spec fn le16(s: Seq<u8>, off: int) -> int {
    s[off] + s[off + 1] * 0x100
}

/// The little-endian value of the 4 bytes at `off`.
pub open spec fn le32(s: Seq<u8>, off: int) -> int {
    le16(s, off) + le16(s, off + 2) * 0x1_0000
}

/// The little-endian value of the 8 bytes at `off`.
pub open spec fn le64(s: Seq<u8>, off: int) -> int {
    le32(s, off) + le32(s, off + 4) * 0x1_0000_0000
}

/// Reads a little-endian `u16` from the first 2 bytes.
pub fn u16_from_le(data: &[u8]) -> (r: u16)
    requires
        data@.len() >= 2,
    ensures
        r == le16(data@, 0),
{
    let b0 = data[0];
    let b1 = data[1];
    assert((b0 as u16) | ((b1 as u16) << 8u16) == b0 + b1 * 0x100) by (bit_vector);
    (b0 as u16) | ((b1 as u16) << 8)
}

/// Reads a little-endian `u32` from the first 4 bytes.
pub fn u32_from_le(data: &[u8]) -> (r: u32)
    requires
        data@.len() >= 4,
    ensures
        r == le32(data@, 0),
{
    let b0 = data[0] as u32;
    let b1 = data[1] as u32;
    let b2 = data[2] as u32;
    let b3 = data[3] as u32;
    assert(b0 | (b1 << 8u32) | (b2 << 16u32) | (b3 << 24u32) == (b0 + b1 * 0x100) + (b2 + b3 * 0x100)
        * 0x1_0000) by (bit_vector)
        requires
            b0 < 256,
            b1 < 256,
            b2 < 256,
            b3 < 256,
    ;
    b0 | (b1 << 8) | (b2 << 16) | (b3 << 24)
}

/// Reads a little-endian `u64` from the first 8 bytes.
pub fn u64_from_le(data: &[u8]) -> (r: u64)
    requires
        data@.len() >= 8,
    ensures
        r == le64(data@, 0),
{
    let lo = u32_from_le(data) as u64;
    let hi = u32_from_le(&data[4..8]) as u64;
    proof {
        assert(data@.subrange(4, 8)[0] == data@[4]);
        assert(data@.subrange(4, 8)[1] == data@[5]);
        assert(data@.subrange(4, 8)[2] == data@[6]);
        assert(data@.subrange(4, 8)[3] == data@[7]);
    }
    assert(lo | (hi << 32u64) == lo + hi * 0x1_0000_0000) by (bit_vector)
        requires
            lo < 0x1_0000_0000,
            hi < 0x1_0000_0000,
    ;
    lo | (hi << 32)
}

/// The part of the ELF header after the identification that loading uses.
#[derive(Clone, Copy, PartialEq, Eq, Structural, Debug)]
pub struct Elf64EhdrPt2 {
    pub e_entry: u64,
}

/// The ELF header fields that loading uses.
#[derive(Clone, Copy, PartialEq, Eq, Structural, Debug)]
pub struct Elf64Header {
    pub pt2: Elf64EhdrPt2,
    pub phoff: u64,
    pub phentsize: u16,
    pub phnum: u16,
}

/// An ELF file: its bytes and its header.
pub struct ElfFile<'a> {
    pub data: &'a [u8],
    pub header: Elf64Header,
}

/// A program header (the fields loading uses).
#[derive(Clone, Copy, PartialEq, Eq, Structural, Debug)]
pub struct ProgramHeader {
    pub p_type: u32,
    pub p_flags: u32,
    pub p_offset: u64,
    pub p_vaddr: u64,
    pub p_filesz: u64,
    pub p_memsz: u64,
}

/// Whether the bytes start like an ELF64 little-endian file with a full header.
pub open spec fn elf_ok(s: Seq<u8>) -> bool {
    &&& s.len() >= 64
    &&& s[0] == 0x7f && s[1] == 0x45 && s[2] == 0x4c && s[3] == 0x46
    &&& s[4] == 2
    &&& s[5] == 1
}

/// The header of an ELF file.
pub open spec fn elf_header(s: Seq<u8>) -> Elf64Header {
    Elf64Header {
        pt2: Elf64EhdrPt2 { e_entry: le64(s, 24) as u64 },
        phoff: le64(s, 32) as u64,
        phentsize: le16(s, 54) as u16,
        phnum: le16(s, 56) as u16,
    }
}

/// The program header at byte `off`.
pub open spec fn program_header_at(s: Seq<u8>, off: int) -> ProgramHeader {
    ProgramHeader {
        p_type: le32(s, off) as u32,
        p_flags: le32(s, off + 4) as u32,
        p_offset: le64(s, off + 8) as u64,
        p_vaddr: le64(s, off + 16) as u64,
        p_filesz: le64(s, off + 32) as u64,
        p_memsz: le64(s, off + 40) as u64,
    }
}

/// The byte offset of program header `i`.
pub open spec fn ph_offset(h: Elf64Header, i: int) -> int {
    h.phoff + i * h.phentsize
}

/// Every program header lies inside the file.
pub open spec fn headers_in_bounds(s: Seq<u8>, h: Elf64Header) -> bool {
    &&& h.phoff + h.phnum * h.phentsize <= u64::MAX
    &&& forall|i: int| 0 <= i < h.phnum ==> #[trigger] ph_offset(h, i) + 48 <= s.len()
}

/// The program headers of a file, in order.
pub open spec fn program_headers(s: Seq<u8>, h: Elf64Header) -> Seq<ProgramHeader> {
    Seq::new(h.phnum as nat, |i: int| program_header_at(s, ph_offset(h, i)))
}

proof fn lemma_le_subrange(s: Seq<u8>, a: int, b: int)
    requires
        0 <= a,
        a + 8 <= b <= s.len(),
    ensures
        le64(s.subrange(a, b), 0) == le64(s, a),
        le32(s.subrange(a, b), 0) == le32(s, a),
        le16(s.subrange(a, b), 0) == le16(s, a),
{
    let t = s.subrange(a, b);
    assert(t[0] == s[a] && t[1] == s[a + 1] && t[2] == s[a + 2] && t[3] == s[a + 3]);
    assert(t[4] == s[a + 4] && t[5] == s[a + 5] && t[6] == s[a + 6] && t[7] == s[a + 7]);
}

proof fn lemma_le_subrange_short(s: Seq<u8>, a: int, b: int)
    requires
        0 <= a,
        a + 4 <= b <= s.len(),
    ensures
        le32(s.subrange(a, b), 0) == le32(s, a),
        le16(s.subrange(a, b), 0) == le16(s, a),
{
    let t = s.subrange(a, b);
    assert(t[0] == s[a] && t[1] == s[a + 1] && t[2] == s[a + 2] && t[3] == s[a + 3]);
}

proof fn lemma_le16_subrange(s: Seq<u8>, a: int, b: int)
    requires
        0 <= a,
        a + 2 <= b <= s.len(),
    ensures
        le16(s.subrange(a, b), 0) == le16(s, a),
{
    let t = s.subrange(a, b);
    assert(t[0] == s[a] && t[1] == s[a + 1]);
}

impl ProgramHeader {
    /// Reads the program header at byte `offset`.
    pub fn read(data: &[u8], offset: usize) -> (r: ProgramHeader)
        requires
            offset + 48 <= data@.len(),
        ensures
            r == program_header_at(data@, offset as int),
    {
        let n = data.len();
        assert(offset + 48 <= n);
        proof {
            lemma_le_subrange_short(data@, offset as int, offset + 4);
            lemma_le_subrange_short(data@, offset + 4, offset + 8);
            lemma_le_subrange(data@, offset + 8, offset + 16);
            lemma_le_subrange(data@, offset + 16, offset + 24);
            lemma_le_subrange(data@, offset + 32, offset + 40);
            lemma_le_subrange(data@, offset + 40, offset + 48);
        }
        ProgramHeader {
            p_type: u32_from_le(&data[offset..offset + 4]),
            p_flags: u32_from_le(&data[offset + 4..offset + 8]),
            p_offset: u64_from_le(&data[offset + 8..offset + 16]),
            p_vaddr: u64_from_le(&data[offset + 16..offset + 24]),
            p_filesz: u64_from_le(&data[offset + 32..offset + 40]),
            p_memsz: u64_from_le(&data[offset + 40..offset + 48]),
        }
    }
}

impl<'a> ElfFile<'a> {
    /// The file, if the bytes start like an ELF64 little-endian file with a full header.
    pub fn new(data: &'a [u8]) -> (r: Option<ElfFile<'a>>)
        ensures
            r is Some <==> elf_ok(data@),
            r matches Some(f) ==> f.data@ == data@ && f.header == elf_header(data@),
    {
        if data.len() < 64 {
            return None;
        }
        if data[0] != 0x7f || data[1] != 0x45 || data[2] != 0x4c || data[3] != 0x46 {
            return None;
        }
        if data[4] != 2 || data[5] != 1 {
            return None;
        }
        proof {
            lemma_le_subrange(data@, 24, 32);
            lemma_le_subrange(data@, 32, 40);
            lemma_le16_subrange(data@, 54, 56);
            lemma_le16_subrange(data@, 56, 58);
        }
        let e_entry = u64_from_le(&data[24..32]);
        let e_phoff = u64_from_le(&data[32..40]);
        let e_phentsize = u16_from_le(&data[54..56]);
        let e_phnum = u16_from_le(&data[56..58]);
        Some(ElfFile {
            data,
            header: Elf64Header { pt2: Elf64EhdrPt2 { e_entry }, phoff: e_phoff, phentsize: e_phentsize, phnum: e_phnum },
        })
    }

    /// The program headers, in order.
    pub fn program_iter(&self) -> (r: Vec<ProgramHeader>)
        requires
            headers_in_bounds(self.data@, self.header),
        ensures
            r@ == program_headers(self.data@, self.header),
    {
        let mut v: Vec<ProgramHeader> = Vec::new();
        let phoff = self.header.phoff;
        let phentsize = self.header.phentsize as u64;
        let phnum = self.header.phnum;
        let n = self.data.len();
        let mut current: u16 = 0;
        while current < phnum
            invariant
                n == self.data@.len(),
                phoff == self.header.phoff,
                phentsize == self.header.phentsize,
                phnum == self.header.phnum,
                headers_in_bounds(self.data@, self.header),
                current <= phnum,
                v@ == program_headers(self.data@, self.header).subrange(0, current as int),
            decreases phnum - current,
        {
            proof {
                assert(ph_offset(self.header, current as int) + 48 <= self.data@.len());
                assert(current * phentsize <= phnum * phentsize) by (nonlinear_arith)
                    requires
                        current <= phnum,
                ;
            }
            let offset = phoff + current as u64 * phentsize;
            assert(offset + 48 <= n);
            let ph = ProgramHeader::read(self.data, offset as usize);
            v.push(ph);
            current = current + 1;
            proof {
                assert(v@ =~= program_headers(self.data@, self.header).subrange(0, current as int));
            }
        }
        proof {
            assert(v@ =~= program_headers(self.data@, self.header));
        }
        v
    }
}

} // verus!
