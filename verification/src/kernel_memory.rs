//! Building the kernel's memory at boot: the frame allocator's range, the trampoline frame
//! and the kernel address space.
use vstd::prelude::*;

use crate::address::{ceil_pages, vpn_index0, vpn_index1, vpn_sv39, PhysAddr, PhysPageNum, VirtAddr};
use crate::config::{KERNEL_HEAP_SIZE, MEMORY_END, PAGE_SIZE, TRAMPOLINE};
use crate::frame::{init_frame_allocator, lemma_alloc_free_set, FrameAllocState, FrameAllocator};
use crate::map_area::{lemma_map_budget_le, map_budget, mapped_walk, outside_slots, tables_grow_in, MapArea, MapType};
use crate::memory_set::{space_ok, trampoline_vpn, MemorySet};
use crate::page_table::{
    alloc_shrinks, changed_only, entry_at, huge_pte_bits, in_tree, l0, l1, mapped_pte, tree_extends, tree_wf, v0, v1, walk, PageTable,
};
use crate::pte::{PTEFlags, FLAG_R, FLAG_W, FLAG_X};
use crate::phys_mem::PhysMem;

verus! {

/// Copies the trampoline code `code` (at most one page) into a newly allocated frame and
/// returns that frame.
pub fn init_trampoline(mem: &mut PhysMem, allocator: &mut FrameAllocator, code: &[u8]) -> (r: PhysPageNum)
    requires
        old(allocator)@.wf(),
        old(allocator)@.can_alloc(),
        forall|p: u64| #[trigger] old(allocator)@.is_free(p) ==> p < 0x10_0000_0000_0000,
        code@.len() <= 4096,
    ensures
        (final(allocator)@, Some(r.0)) == old(allocator)@.alloc_spec(),
        final(allocator)@.wf(),
        forall|i: int| 0 <= i < code@.len() ==> #[trigger] final(mem).byte((r.0 * 4096 + i) as u64) == code@[i],
        forall|p: u64| p != r.0 ==> #[trigger] final(mem).frame(p) == old(mem).frame(p),
{
    proof {
        lemma_alloc_free_set(old(allocator)@);
    }
    let frame = crate::frame::frame_alloc(allocator).unwrap();
    let len = code.len();
    let pa: u64 = frame.0 * PAGE_SIZE;
    let ghost m0 = *mem;
    let mut i: usize = 0;
    while i < len
        invariant
            len == code@.len(),
            len <= 4096,
            pa == frame.0 * 4096,
            frame.0 < 0x10_0000_0000_0000,
            i <= len,
            forall|j: int| 0 <= j < i ==> #[trigger] mem.byte((pa + j) as u64) == code@[j],
            forall|p: u64| p != frame.0 ==> #[trigger] mem.frame(p) == m0.frame(p),
        decreases len - i,
    {
        let a = pa + i as u64;
        let ghost m1 = *mem;
        mem.write_byte(PhysAddr(a), code[i]);
        proof {
            assert(a / 4096 == frame.0);
            assert forall|j: int| 0 <= j < i + 1 implies #[trigger] mem.byte((pa + j) as u64) == code@[j] by {
                if j < i {
                    assert(m1.byte((pa + j) as u64) == code@[j]);
                }
            }
        }
        i = i + 1;
    }
    frame
}


/// The first frame the allocator hands out at boot: the one after the kernel image (which
/// ends at `ekernel`) and the kernel heap.
pub open spec fn kernel_frame_start(ekernel: u64) -> int {
    ceil_pages(ekernel as int) + ceil_pages(KERNEL_HEAP_SIZE as int)
}

/// The first 2 MiB boundary at or above the start of frame `fs`.
pub open spec fn huge_start(fs: int) -> int {
    ((fs * 4096 + 0x1f_ffff) / 0x20_0000) * 0x20_0000
}

/// The 2 MiB-aligned frames that building the kernel address space takes: the trampoline
/// frame, the root table, the tables of the identity-mapped kernel image, heap and head of
/// the frame range, and the two tables of the trampoline mapping.
pub open spec fn kernel_frames_needed(stext: u64, ekernel: u64) -> int {
    let fs = kernel_frame_start(ekernel);
    let hs = huge_start(fs);
    4 + map_budget(false, (stext / 4096) as u64, ceil_pages(ekernel as int) - stext / 4096) + map_budget(
        false,
        (ekernel / 4096) as u64,
        fs - ekernel / 4096,
    ) + (if hs > fs * 4096 { map_budget(false, fs as u64, hs / 4096 - fs) } else { 0 })
}

/// The allocator right after `init_frame_allocator` at boot.
pub open spec fn boot_allocator(ekernel: u64) -> FrameAllocState {
    FrameAllocState { current: kernel_frame_start(ekernel) as u64, end: (MEMORY_END / 4096) as u64, recycled: Seq::empty() }
}

/// A page of RAM (`[0x8000_0000, MEMORY_END)`) lies in root slot 2; its level-1 index is its
/// number divided by 512, less 1024; its Sv39 part is itself.
proof fn lemma_ram_page(v: u64)
    requires
        0x80000 <= v < 0x88000,
    ensures
        vpn_index0(v) == 2,
        vpn_index1(v) == v / 512 - 1024,
        vpn_sv39(v) == v,
{
    assert(0x80000 <= v < 0x88000 ==> (v >> 18u64) & 0x1ffu64 == 2 && (v >> 9u64) & 0x1ffu64 == (v >> 9u64) - 1024 && v >> 9u64 == v
        / 512 && v & 0x7ff_ffffu64 == v) by (bit_vector);
}

/// The trampoline page lies in root slot 511.
proof fn lemma_trampoline_slot()
    ensures
        vpn_index0(trampoline_vpn(TRAMPOLINE)) == 511,
        vpn_sv39(trampoline_vpn(TRAMPOLINE)) == 0x7ff_ffff,
{
    crate::address::lemma_high_pages();
    crate::address::lemma_vpn_indexes(trampoline_vpn(TRAMPOLINE));
}

/// Identity-mapping RAM pages below the 2 MiB boundary `he` makes no level-1 entry at or
/// above that boundary valid.
proof fn lemma_no_v1_from(m1: &PhysMem, m2: &PhysMem, root: u64, s: u64, n: int, he: u64)
    requires
        tables_grow_in(m1, m2, root, s, n),
        0x80000 <= s,
        s + n <= he <= 0x88000,
        he % 512 == 0,
        forall|j: u64| he / 512 - 1024 <= j < 512 ==> !#[trigger] v1(m1, root, 2, j),
    ensures
        forall|j: u64| he / 512 - 1024 <= j < 512 ==> !#[trigger] v1(m2, root, 2, j),
{
    assert forall|j: u64| he / 512 - 1024 <= j < 512 implies !#[trigger] v1(m2, root, 2, j) by {
        if v1(m2, root, 2, j) {
            let k = choose|k: int|
                #![trigger vpn_index0((s + k) as u64), vpn_index1((s + k) as u64)]
                0 <= k < n && vpn_index0((s + k) as u64) == 2 && vpn_index1((s + k) as u64) == j;
            lemma_ram_page((s + k) as u64);
            assert((s + k) / 512 < he / 512) by (nonlinear_arith)
                requires
                    s + k < he,
                    he % 512 == 0,
            ;
        }
    }
}

/// Pages of RAM in different places use different slots.
proof fn lemma_ram_slots(s: u64, n: int, v: u64)
    requires
        0x80000 <= s,
        s + n <= 0x88000,
        0x80000 <= v < 0x88000,
        !(s <= v < s + n),
    ensures
        outside_slots(s, n, v),
{
    lemma_ram_page(v);
    assert forall|k: int| 0 <= k < n implies vpn_sv39(v) != #[trigger] vpn_sv39((s + k) as u64) by {
        lemma_ram_page((s + k) as u64);
    }
}

/// The trampoline page uses a slot of its own, away from RAM.
proof fn lemma_trampoline_outside(s: u64, n: int)
    requires
        0x80000 <= s,
        s + n <= 0x88000,
    ensures
        outside_slots(s, n, trampoline_vpn(TRAMPOLINE)),
{
    lemma_trampoline_slot();
    assert forall|k: int| 0 <= k < n implies vpn_sv39(trampoline_vpn(TRAMPOLINE)) != #[trigger] vpn_sv39((s + k) as u64) by {
        lemma_ram_page((s + k) as u64);
    }
}

impl MemorySet {
    /// Identity-maps the pages covering `[start_va, end_va)` with `perm` (as an area of its
    /// own); pages already mapped stay as they are.
    fn push_identity(&mut self, mem: &mut PhysMem, allocator: &mut FrameAllocator, start_va: u64, end_va: u64, perm: PTEFlags)
        requires
            space_ok(old(mem), old(self), old(allocator)@),
            end_va + 4096 <= u64::MAX,
            start_va / 4096 <= ceil_pages(end_va as int) <= start_va / 4096 + 0x800_0000,
            old(allocator)@.aligned_count() >= map_budget(false, (start_va / 4096) as u64, ceil_pages(end_va as int) - start_va / 4096),
        ensures
            old(self).page_table.owned_frames().is_prefix_of(final(self).page_table.owned_frames()),
            final(self).page_table.root_ppn == old(self).page_table.root_ppn,
            space_ok(final(mem), final(self), final(allocator)@),
            alloc_shrinks(old(allocator)@, final(allocator)@),
            changed_only(old(mem), final(mem), old(self).page_table.root_ppn.0, old(allocator)@, final(allocator)@),
            tree_extends(old(mem), final(mem), old(self).page_table.root_ppn.0, old(allocator)@, final(allocator)@),
            final(allocator)@.aligned_count() >= old(allocator)@.aligned_count() - map_budget(
                false,
                (start_va / 4096) as u64,
                ceil_pages(end_va as int) - start_va / 4096,
            ),
            forall|k: int|
                0 <= k < ceil_pages(end_va as int) - start_va / 4096 ==> #[trigger] walk(
                    final(mem),
                    final(self).page_table.root_ppn.0,
                    (start_va / 4096 + k) as u64,
                ) == mapped_walk(old(mem), old(self).page_table.root_ppn.0, (start_va / 4096 + k) as u64, (start_va / 4096 + k) as u64, perm@),
            forall|v: u64|
                outside_slots((start_va / 4096) as u64, ceil_pages(end_va as int) - start_va / 4096, v) ==> #[trigger] walk(
                    final(mem),
                    final(self).page_table.root_ppn.0,
                    v,
                ) == walk(old(mem), old(self).page_table.root_ppn.0, v),
            forall|v: u64|
                #[trigger] walk(old(mem), old(self).page_table.root_ppn.0, v) is Some ==> walk(
                    final(mem),
                    final(self).page_table.root_ppn.0,
                    v,
                ) == walk(old(mem), old(self).page_table.root_ppn.0, v),
            tables_grow_in(
                old(mem),
                final(mem),
                old(self).page_table.root_ppn.0,
                (start_va / 4096) as u64,
                ceil_pages(end_va as int) - start_va / 4096,
            ),
    {
        let area = MapArea::new(VirtAddr(start_va), VirtAddr(end_va), MapType::Identical, perm);
        self.push(mem, allocator, area, None);
    }

    /// Identity-maps the kernel image `[stext, ekernel)` readable, writable and executable,
    /// then the rest up to frame `fs` and from there up to the 2 MiB boundary `hs` readable
    /// and writable, and maps the trampoline frame `tf` at `TRAMPOLINE`.
    fn map_kernel_regions(
        &mut self,
        mem: &mut PhysMem,
        allocator: &mut FrameAllocator,
        stext: u64,
        ekernel: u64,
        fs: u64,
        hs: u64,
        tf: PhysPageNum,
    )
        requires
            space_ok(old(mem), old(self), old(allocator)@),
            forall|v: u64| #[trigger] walk(old(mem), old(self).page_table.root_ppn.0, v) is None,
            forall|a: u64| a < 512 ==> !#[trigger] v0(old(mem), old(self).page_table.root_ppn.0, a),
            0x8000_0000 <= stext < ekernel,
            fs == kernel_frame_start(ekernel),
            fs < MEMORY_END / 4096,
            hs == huge_start(fs as int),
            old(allocator)@.aligned_count() >= kernel_frames_needed(stext, ekernel) - 2,
        ensures
            old(self).page_table.owned_frames().is_prefix_of(final(self).page_table.owned_frames()),
            final(self).page_table.root_ppn == old(self).page_table.root_ppn,
            space_ok(final(mem), final(self), final(allocator)@),
            alloc_shrinks(old(allocator)@, final(allocator)@),
            changed_only(old(mem), final(mem), old(self).page_table.root_ppn.0, old(allocator)@, final(allocator)@),
            tree_extends(old(mem), final(mem), old(self).page_table.root_ppn.0, old(allocator)@, final(allocator)@),
            ({
                let root = final(self).page_table.root_ppn.0;
                &&& walk(final(mem), root, trampoline_vpn(TRAMPOLINE)) == Some(mapped_pte(tf.0, FLAG_R | FLAG_X))
                &&& forall|v: u64|
                    stext / 4096 <= v < ceil_pages(ekernel as int) ==> #[trigger] walk(final(mem), root, v) == Some(
                        mapped_pte(v, FLAG_R | FLAG_W | FLAG_X),
                    )
                &&& forall|v: u64|
                    ceil_pages(ekernel as int) <= v < hs / 4096 ==> #[trigger] walk(final(mem), root, v) == Some(
                        mapped_pte(v, FLAG_R | FLAG_W),
                    )
                &&& v0(final(mem), root, 2)
                &&& forall|j: u64| (hs / 4096) / 512 - 1024 <= j < 512 ==> !#[trigger] v1(final(mem), root, 2, j)
            }),
    {
        let ghost root = self.page_table.root_ppn.0;
        let ghost m0 = *mem;
        let ghost a0 = allocator@;
        let ghost tv = trampoline_vpn(TRAMPOLINE);
        let ghost sk = stext / 4096;
        let ghost ek = ceil_pages(ekernel as int);
        let ghost sh = ekernel / 4096;
        let ghost he = hs / 4096;
        let rwx = PTEFlags::R().union(PTEFlags::W()).union(PTEFlags::X());
        let rw = PTEFlags::R().union(PTEFlags::W());
        let frame_start_addr = fs * PAGE_SIZE;
        proof {
            lemma_trampoline_slot();
            assert(he * 4096 == hs && hs <= MEMORY_END && he <= 0x88000 && he % 512 == 0) by (nonlinear_arith)
                requires
                    hs == ((fs * 4096 + 0x1f_ffff) / 0x20_0000) * 0x20_0000,
                    he == hs / 4096,
                    fs < 0x88000,
            ;
            lemma_map_budget_le(false, sk as u64, ek - sk);
            lemma_map_budget_le(false, sh as u64, fs - sh);
            if hs > frame_start_addr {
                lemma_map_budget_le(false, fs, he - fs);
            }
        }
        self.push_identity(mem, allocator, stext, ekernel, rwx);
        let ghost m1 = *mem;
        let ghost a1 = allocator@;
        self.push_identity(mem, allocator, ekernel, frame_start_addr, rw);
        let ghost m2 = *mem;
        let ghost a2 = allocator@;
        if hs > frame_start_addr {
            self.push_identity(mem, allocator, frame_start_addr, hs, rw);
        }
        let ghost m3 = *mem;
        let ghost a3 = allocator@;
        self.push_trampoline(mem, allocator, tf, TRAMPOLINE);
        proof {
            let hn = if hs > frame_start_addr { he - fs } else { 0 };
            // The kernel image.
            assert forall|v: u64| sk <= v < ek implies #[trigger] walk(&m1, root, v) == Some(mapped_pte(v, FLAG_R | FLAG_W | FLAG_X)) by {
                assert(walk(&m1, root, (sk + (v - sk)) as u64) == mapped_walk(&m0, root, (sk + (v - sk)) as u64, (sk + (v - sk)) as u64, rwx@));
            }
            // The rest up to the frame range, and its head.
            assert forall|v: u64| ek <= v < fs implies #[trigger] walk(&m2, root, v) == Some(mapped_pte(v, FLAG_R | FLAG_W)) by {
                lemma_ram_slots(sk as u64, ek - sk, v);
                assert(walk(&m2, root, (sh + (v - sh)) as u64) == mapped_walk(&m1, root, (sh + (v - sh)) as u64, (sh + (v - sh)) as u64, rw@));
            }
            assert forall|v: u64| fs <= v < he implies #[trigger] walk(&m3, root, v) == Some(mapped_pte(v, FLAG_R | FLAG_W)) by {
                lemma_ram_slots(sk as u64, ek - sk, v);
                lemma_ram_slots(sh as u64, fs - sh, v);
                assert(walk(&m3, root, (fs + (v - fs)) as u64) == mapped_walk(&m2, root, (fs + (v - fs)) as u64, (fs + (v - fs)) as u64, rw@));
            }
            // Nothing was mapped in the trampoline's slot before.
            lemma_trampoline_outside(sk as u64, ek - sk);
            lemma_trampoline_outside(sh as u64, fs - sh);
            lemma_trampoline_outside(fs, hn);
            assert(walk(&m3, root, tv) is None);
            assert forall|v: u64| 0x80000 <= v < 0x88000 implies #[trigger] walk(mem, root, v) == walk(&m3, root, v) by {
                lemma_ram_page(v);
            }
            assert forall|v: u64| sk <= v < ek implies #[trigger] walk(mem, root, v) == Some(mapped_pte(v, FLAG_R | FLAG_W | FLAG_X)) by {
                assert(walk(&m1, root, v) is Some);
            }
            assert forall|v: u64| ek <= v < he implies #[trigger] walk(mem, root, v) == Some(mapped_pte(v, FLAG_R | FLAG_W)) by {
                if v < fs {
                    assert(walk(&m2, root, v) is Some);
                } else {
                    assert(walk(&m3, root, v) is Some);
                }
            }
            // The level-1 entries from the 2 MiB boundary on are still free.
            assert forall|j: u64| he / 512 - 1024 <= j < 512 implies !#[trigger] v1(&m0, root, 2, j) by {}
            lemma_no_v1_from(&m0, &m1, root, sk as u64, ek - sk, he as u64);
            lemma_no_v1_from(&m1, &m2, root, sh as u64, fs - sh, he as u64);
            if hs > frame_start_addr {
                lemma_no_v1_from(&m2, &m3, root, fs, he - fs, he as u64);
            }
            lemma_ram_page(sk as u64);
            assert(walk(mem, root, sk as u64) is Some);
        }
    }
}

/// Changing only the level-1 table `t` of root slot 2, and in it only entries from `j0` on,
/// keeps every walk through another root slot or through an earlier entry of `t`.
proof fn lemma_walk_outside_table(m1: &PhysMem, m2: &PhysMem, root: u64, t: u64, j0: u64)
    requires
        tree_wf(m1, root),
        v0(m1, root, 2),
        t == l1(m1, root, 2),
        forall|p: u64| p != t ==> #[trigger] m2.frame(p) == m1.frame(p),
        forall|k: u64| k < j0 ==> #[trigger] entry_at(m2, t, k) == entry_at(m1, t, k),
    ensures
        forall|v: u64| (vpn_index0(v) != 2 || vpn_index1(v) < j0) ==> #[trigger] walk(m2, root, v) == walk(m1, root, v),
{
    assert(in_tree(m1, root, root));
    assert(t != root);
    assert forall|v: u64| (vpn_index0(v) != 2 || vpn_index1(v) < j0) implies #[trigger] walk(m2, root, v) == walk(m1, root, v) by {
        crate::address::lemma_vpn_indexes(v);
        let a = vpn_index0(v);
        let b = vpn_index1(v);
        assert(entry_at(m2, root, a) == entry_at(m1, root, a));
        if v0(m1, root, a) {
            if a != 2 {
                assert(l1(m1, root, a) != t);
            }
            assert(entry_at(m2, l1(m1, root, a), b) == entry_at(m1, l1(m1, root, a), b));
            if v1(m1, root, a, b) {
                assert(l0(m1, root, a, b) != t);
            }
        }
    }
}

/// Maps the RAM from the 2 MiB boundary `hs` to `MEMORY_END` with 2 MiB pages, readable and
/// writable, through the level-1 table of root slot 2.
fn map_huge_range(page_table: &mut PageTable, mem: &mut PhysMem, allocator: &mut FrameAllocator, hs: u64)
    requires
        tree_wf(old(mem), old(page_table).root_ppn.0),
        v0(old(mem), old(page_table).root_ppn.0, 2),
        0x8000_0000 <= hs <= MEMORY_END,
        hs % 0x20_0000 == 0,
        forall|j: u64| hs / 0x20_0000 - 1024 <= j < 512 ==> !#[trigger] v1(old(mem), old(page_table).root_ppn.0, 2, j),
    ensures
        final(page_table).owned_frames() == old(page_table).owned_frames(),
        final(page_table).root_ppn == old(page_table).root_ppn,
        final(allocator)@ == old(allocator)@,
        ({
            let root = old(page_table).root_ppn.0;
            let t = l1(old(mem), root, 2);
            &&& v0(final(mem), root, 2)
            &&& l1(final(mem), root, 2) == t
            &&& forall|p: u64| p != t ==> #[trigger] final(mem).frame(p) == old(mem).frame(p)
            &&& forall|k: u64|
                k < 512 ==> #[trigger] entry_at(final(mem), t, k) == if hs / 0x20_0000 - 1024 <= k < MEMORY_END / 0x20_0000 - 1024 {
                    huge_pte_bits(((k + 1024) * 512) as u64, FLAG_R | FLAG_W)
                } else {
                    entry_at(old(mem), t, k)
                }
        }),
{
    let ghost root = page_table.root_ppn.0;
    let ghost m0 = *mem;
    let ghost t = l1(&m0, root, 2);
    let ghost j0 = hs / 0x20_0000 - 1024;
    let huge_size: u64 = 2 * 1024 * 1024;
    let rw = PTEFlags::R().union(PTEFlags::W());
    let mut huge_va = hs;
    proof {
        assert(in_tree(&m0, root, root));
        assert(t != root);
    }
    while huge_va < MEMORY_END
        invariant
            page_table.root_ppn.0 == root,
            page_table.owned_frames() == old(page_table).owned_frames(),
            allocator@ == old(allocator)@,
            t == l1(&m0, root, 2),
            t != root,
            j0 == hs / 0x20_0000 - 1024,
            hs <= huge_va <= MEMORY_END,
            huge_va % 0x20_0000 == 0,
            huge_size == 0x20_0000,
            rw@ == FLAG_R | FLAG_W,
            0x8000_0000 <= hs,
            hs % 0x20_0000 == 0,
            v0(mem, root, 2),
            l1(mem, root, 2) == t,
            forall|p: u64| p != t ==> #[trigger] mem.frame(p) == m0.frame(p),
            forall|k: u64|
                k < 512 ==> #[trigger] entry_at(mem, t, k) == if j0 <= k < huge_va / 0x20_0000 - 1024 {
                    huge_pte_bits(((k + 1024) * 512) as u64, FLAG_R | FLAG_W)
                } else {
                    entry_at(&m0, t, k)
                },
            forall|j: u64| j0 <= j < 512 ==> !#[trigger] v1(&m0, root, 2, j),
        decreases MEMORY_END - huge_va,
    {
        let vpn = VirtAddr(huge_va).floor();
        let ppn = PhysPageNum(huge_va / PAGE_SIZE);
        let ghost m1 = *mem;
        let ghost j = (huge_va / 0x20_0000 - 1024) as u64;
        proof {
            lemma_ram_page(vpn.0);
            assert(vpn.0 / 512 == huge_va / 0x20_0000);
            assert(vpn_index1(vpn.0) == j);
            assert(!v1(&m0, root, 2, j));
            assert(entry_at(mem, t, j) == entry_at(&m0, t, j));
        }
        page_table.map_huge(mem, allocator, vpn, ppn, rw);
        proof {
            assert forall|k: u64| k < 512 implies #[trigger] entry_at(mem, t, k) == if j0 <= k < (huge_va + 0x20_0000) / 0x20_0000 - 1024 {
                huge_pte_bits(((k + 1024) * 512) as u64, FLAG_R | FLAG_W)
            } else {
                entry_at(&m0, t, k)
            } by {
                if k == j {
                    assert(((k + 1024) * 512) as u64 == ppn.0);
                } else {
                    assert(entry_at(mem, t, k) == entry_at(&m1, t, k));
                }
            }
        }
        huge_va = huge_va + huge_size;
    }
}

/// Builds the kernel's memory at boot, for a kernel image `[stext, ekernel)`: hands the
/// frames after the image and the heap up to `MEMORY_END` to the allocator, copies the
/// trampoline code to a frame, and builds the kernel address space: the image
/// identity-mapped readable, writable and executable, the rest up to the first 2 MiB
/// boundary of the frame range identity-mapped readable and writable, the trampoline
/// frame at `TRAMPOLINE`, and the frame range from that boundary to `MEMORY_END` identity-
/// mapped with 2 MiB pages (the trampoline and the 2 MiB pages use different tables, so the
/// order of the two does not matter). Returns the address space and the trampoline frame.
#[verifier::rlimit(50)]
pub fn init_kernel_memory(
    mem: &mut PhysMem,
    allocator: &mut FrameAllocator,
    stext: u64,
    ekernel: u64,
    trampoline_code: &[u8],
) -> (r: (MemorySet, PhysPageNum))
    requires
        old(allocator)@.recycled.len() == 0,
        0x8000_0000 <= stext < ekernel,
        kernel_frame_start(ekernel) < MEMORY_END / 4096,
        trampoline_code@.len() <= 4096,
        boot_allocator(ekernel).aligned_count() >= kernel_frames_needed(stext, ekernel),
    ensures
        ({
            let (ks, tf) = r;
            let root = ks.page_table.root_ppn.0;
            let fs = kernel_frame_start(ekernel);
            let hs = huge_start(fs);
            &&& tf.0 == fs
            &&& ks.page_table.frames@.len() >= 1 && ks.page_table.frames@[0] == ks.page_table.root_ppn
            &&& final(allocator)@.wf()
            &&& final(allocator)@.end == MEMORY_END / 4096
            &&& forall|p: u64| #[trigger] final(allocator)@.is_free(p) ==> boot_allocator(ekernel).is_free(p) && p != fs
            &&& forall|i: int| 0 <= i < trampoline_code@.len() ==> #[trigger] final(mem).byte((fs * 4096 + i) as u64) == trampoline_code@[i]
            &&& walk(final(mem), root, trampoline_vpn(TRAMPOLINE)) == Some(mapped_pte(fs as u64, FLAG_R | FLAG_X))
            &&& forall|v: u64|
                stext / 4096 <= v < ceil_pages(ekernel as int) ==> #[trigger] walk(final(mem), root, v) == Some(
                    mapped_pte(v, FLAG_R | FLAG_W | FLAG_X),
                )
            &&& forall|v: u64|
                ceil_pages(ekernel as int) <= v < hs / 4096 ==> #[trigger] walk(final(mem), root, v) == Some(mapped_pte(v, FLAG_R | FLAG_W))
            &&& v0(final(mem), root, 2)
            &&& forall|k: u64|
                hs / 0x20_0000 - 1024 <= k < MEMORY_END / 0x20_0000 - 1024 ==> #[trigger] entry_at(final(mem), l1(final(mem), root, 2), k)
                    == huge_pte_bits(((k + 1024) * 512) as u64, FLAG_R | FLAG_W)
        }),
{
    let ek_ceil: u64 = (ekernel + PAGE_SIZE - 1) / PAGE_SIZE;
    let heap_pages: u64 = (KERNEL_HEAP_SIZE + PAGE_SIZE - 1) / PAGE_SIZE;
    let frame_start = PhysPageNum(ek_ceil + heap_pages);
    let end = PhysPageNum(MEMORY_END / PAGE_SIZE);
    init_frame_allocator(allocator, frame_start, end);
    let ghost a_boot = allocator@;
    proof {
        assert(old(allocator)@.recycled =~= Seq::<u64>::empty());
        assert(a_boot == boot_allocator(ekernel));
        lemma_alloc_free_set(a_boot);
        let fs = kernel_frame_start(ekernel);
        let hs = huge_start(fs);
        lemma_map_budget_le(false, (stext / 4096) as u64, ceil_pages(ekernel as int) - stext / 4096);
        lemma_map_budget_le(false, (ekernel / 4096) as u64, fs - ekernel / 4096);
        if hs > fs * 4096 {
            assert(hs / 4096 - fs >= 0) by (nonlinear_arith)
                requires
                    hs > fs * 4096,
            ;
            lemma_map_budget_le(false, fs as u64, hs / 4096 - fs);
        }
    }
    let trampoline_frame = init_trampoline(mem, allocator, trampoline_code);
    let ghost m_t = *mem;
    let ghost a_t = allocator@;
    proof {
        lemma_alloc_free_set(a_t);
        assert(a_t.aligned_count() > 0);
    }
    let mut kernel_space = MemorySet::new(mem, allocator);
    let ghost f_new = kernel_space.page_table.owned_frames();
    let ghost root = kernel_space.page_table.root_ppn.0;
    let ghost m_n = *mem;
    let ghost a_n = allocator@;
    let frame_start_addr = frame_start.0 * PAGE_SIZE;
    let huge_size: u64 = 2 * 1024 * 1024;
    let huge_start = (frame_start_addr + huge_size - 1) / huge_size * huge_size;
    kernel_space.map_kernel_regions(mem, allocator, stext, ekernel, frame_start.0, huge_start, trampoline_frame);
    let ghost m_pre = *mem;
    proof {
        assert(frame_start.0 != root);
        assert forall|p: u64| #[trigger] in_tree(&m_pre, root, p) implies p != frame_start.0 by {
            if !in_tree(&m_n, root, p) {
                assert(a_n.is_free(p));
            }
        }
        assert(m_pre.frame(frame_start.0) == m_t.frame(frame_start.0)) by {
            assert(!in_tree(&m_n, root, frame_start.0));
            assert(!a_n.is_free(frame_start.0));
        }
        assert(huge_start % 0x20_0000 == 0 && 0x8000_0000 <= huge_start <= MEMORY_END) by (nonlinear_arith)
            requires
                huge_start == ((frame_start_addr + 0x1f_ffff) / 0x20_0000) * 0x20_0000,
                frame_start_addr == frame_start.0 * 4096,
                0x80000 <= frame_start.0 < 0x88000,
        ;
    }
    let ghost f_mid = kernel_space.page_table.owned_frames();
    map_huge_range(&mut kernel_space.page_table, mem, allocator, huge_start);
    assert(f_new.is_prefix_of(kernel_space.page_table.owned_frames()) && f_new[0] == kernel_space.page_table.root_ppn) by {
        assert(f_new.is_prefix_of(f_mid));
    }
    proof {
        let t = l1(&m_pre, root, 2);
        assert(in_tree(&m_pre, root, t));
        lemma_walk_outside_table(&m_pre, mem, root, t, (huge_start / 0x20_0000 - 1024) as u64);
        lemma_trampoline_slot();
        assert(walk(mem, root, trampoline_vpn(TRAMPOLINE)) == walk(&m_pre, root, trampoline_vpn(TRAMPOLINE)));
        assert forall|v: u64| stext / 4096 <= v < huge_start / 4096 implies #[trigger] walk(mem, root, v) == walk(&m_pre, root, v) by {
            lemma_ram_page(v);
            assert(v / 512 < huge_start / 0x20_0000) by (nonlinear_arith)
                requires
                    v < huge_start / 4096,
                    huge_start % 0x20_0000 == 0,
            ;
        }
        assert(mem.frame(frame_start.0) == m_t.frame(frame_start.0));
        assert forall|i: int| 0 <= i < trampoline_code@.len() implies #[trigger] mem.byte(
            (frame_start.0 * 4096 + i) as u64,
        ) == trampoline_code@[i] by {
            let a = (frame_start.0 * 4096 + i) as u64;
            assert(a / 4096 == frame_start.0);
            assert(m_t.byte(a) == trampoline_code@[i]);
        }
    }
    (kernel_space, trampoline_frame)
}

/// Whether the kernel address space maps the trampoline page, as the kernel checks once
/// its page table is built.
pub fn remap_test(kernel_space: &MemorySet, mem: &PhysMem) -> (r: bool)
    ensures
        r == walk(mem, kernel_space.page_table.root_ppn.0, trampoline_vpn(TRAMPOLINE)) is Some,
{
    match kernel_space.translate(mem, crate::address::VirtPageNum::from(TRAMPOLINE)) {
        Some(_) => true,
        None => false,
    }
}

/// The number of level-0 tables that mapping the `n` pages from `start` may start.
fn count_table_blocks(start: u64, n: u64) -> (r: u64)
    requires
        start + n <= 0x1_0000_0000,
    ensures
        r == crate::map_area::table_blocks(start, n as int),
        r <= n,
{
    let mut i: u64 = 0;
    let mut c: u64 = 0;
    while i < n
        invariant
            start + n <= 0x1_0000_0000,
            i <= n,
            c <= i,
            c == crate::map_area::table_blocks(start, i as int),
        decreases n - i,
    {
        if i == 0 || (start + i) % 512 == 0 {
            c = c + 1;
        }
        i = i + 1;
    }
    c
}

/// Whether the frames of the machine suffice to build the kernel address space for a kernel
/// image in `[stext, ekernel)`: the test before `init_kernel_memory`.
pub fn kernel_memory_fits(stext: u64, ekernel: u64) -> (r: bool)
    requires
        0x8000_0000 <= stext < ekernel,
        kernel_frame_start(ekernel) < MEMORY_END / 4096,
    ensures
        r == (boot_allocator(ekernel).aligned_count() >= kernel_frames_needed(stext, ekernel)),
{
    let ek_ceil: u64 = (ekernel + PAGE_SIZE - 1) / PAGE_SIZE;
    let fs: u64 = ek_ceil + (KERNEL_HEAP_SIZE + PAGE_SIZE - 1) / PAGE_SIZE;
    let hs: u64 = ((fs * PAGE_SIZE + 0x1f_ffff) / 0x20_0000) * 0x20_0000;
    let end: u64 = MEMORY_END / PAGE_SIZE;
    let aligned: u64 = (end + 511) / 512 - (fs + 511) / 512;
    let s: u64 = stext / PAGE_SIZE;
    let e: u64 = ekernel / PAGE_SIZE;
    let mut need: u64 = 4 + 2 * count_table_blocks(s, ek_ceil - s) + 2 * count_table_blocks(e, fs - e);
    if hs > fs * PAGE_SIZE {
        need = need + 2 * count_table_blocks(fs, hs / PAGE_SIZE - fs);
    }
    aligned >= need
}

} // verus!
