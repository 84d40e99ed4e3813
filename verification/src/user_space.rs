//! Building user address spaces: from an ELF image, and as a copy of another space.
use vstd::prelude::*;

use crate::address::{ceil_pages, vpn_sv39, VirtAddr, VirtPageNum};
use crate::config::{PAGE_SIZE, TRAMPOLINE, TRAP_CONTEXT_USER, USER_STACK_SIZE};
use crate::elf::{elf_header, elf_ok, headers_in_bounds, program_headers, ElfFile, ProgramHeader};
use crate::frame::{lemma_alloc_free_set, FrameAllocState, FrameAllocator};
use crate::map_area::{area_ppn, copy_mapped, copy_target, lemma_map_budget_le, mapped_walk, outside_slots, MapArea, MapType};
use crate::memory_set::{is_copy_target, law_copied_byte_injective, leaves_distinct, leaves_ok, space_ok, trampoline_vpn, MemorySet};
use crate::fork_space::{areas_mapped, first_in_slot, leaves_have_area_perms, lemma_areas_mapped_keep, lemma_copy_slots_step, user_space_ok};
use crate::page_table::{
    alloc_ok_for, alloc_shrinks, in_tree, law_translate_keeps_offset, law_walk_uses_sv39_bits, lemma_agree_on_tree, lemma_alloc_ok_step,
    lemma_distinct_slots, mapped_pte, translate_va_spec, user_byte, walk, walk_after_map,
};
use crate::phys_mem::PhysMem;
use crate::pte::{law_pte_roundtrip, pte_ppn, PTEFlags, FLAG_R, FLAG_U, FLAG_W, FLAG_X};

verus! {

/// Whether a program header describes a segment to load (`PT_LOAD`).
pub open spec fn is_load(ph: ProgramHeader) -> bool {
    ph.p_type == 1
}

/// The first page of a segment.
pub open spec fn seg_start_vpn(ph: ProgramHeader) -> int {
    (ph.p_vaddr / 4096) as int
}

/// The page just past a segment.
pub open spec fn seg_end_vpn(ph: ProgramHeader) -> int {
    ceil_pages(ph.p_vaddr + ph.p_memsz)
}

/// The number of pages a segment occupies.
pub open spec fn seg_pages(ph: ProgramHeader) -> int {
    if seg_start_vpn(ph) < seg_end_vpn(ph) {
        seg_end_vpn(ph) - seg_start_vpn(ph)
    } else {
        0
    }
}

/// A segment to load lies inside the file, has no more bytes in the file than in memory,
/// and fits the address space.
pub open spec fn load_ok(ph: ProgramHeader, file_len: int) -> bool {
    &&& ph.p_offset + ph.p_filesz <= file_len
    &&& ph.p_filesz <= ph.p_memsz
    &&& ph.p_vaddr + ph.p_memsz + 4096 <= u64::MAX
    &&& seg_pages(ph) <= 0x800_0000
}

/// The page permissions of a segment: user-accessible, plus read, write and execute as the
/// segment's flags ask (bits 2, 1 and 0).
pub open spec fn seg_perm(flags: u32) -> u8 {
    let p0 = FLAG_U;
    let p1 = if flags & 4 != 0 { p0 | FLAG_R } else { p0 };
    let p2 = if flags & 2 != 0 { p1 | FLAG_W } else { p1 };
    if flags & 1 != 0 { p2 | FLAG_X } else { p2 }
}

/// The permissions of a loaded segment follow its ELF flags bit by bit: always
/// user-accessible; readable exactly when `PF_R` (bit 2) is set, writable exactly when `PF_W`
/// (bit 1) is set, executable exactly when `PF_X` (bit 0) is set; and no other flag (not V, G,
/// A or D).
pub proof fn law_segment_permissions(flags: u32)
    ensures
        seg_perm(flags) & FLAG_U == FLAG_U,
        (seg_perm(flags) & FLAG_R != 0) == (flags & 4 != 0),
        (seg_perm(flags) & FLAG_W != 0) == (flags & 2 != 0),
        (seg_perm(flags) & FLAG_X != 0) == (flags & 1 != 0),
        seg_perm(flags) & 0xe1u8 == 0,
{
    let p = seg_perm(flags);
    let r = flags & 4 != 0;
    let w = flags & 2 != 0;
    let x = flags & 1 != 0;
    assert(p == (if x { (if w { (if r { 16u8 | 2u8 } else { 16u8 }) | 4u8 } else { if r { 16u8 | 2u8 } else { 16u8 } }) | 8u8 } else {
        if w { (if r { 16u8 | 2u8 } else { 16u8 }) | 4u8 } else { if r { 16u8 | 2u8 } else { 16u8 } }
    }));
    assert({
        let q = if x { (if w { (if r { 16u8 | 2u8 } else { 16u8 }) | 4u8 } else { if r { 16u8 | 2u8 } else { 16u8 } }) | 8u8 } else {
            if w { (if r { 16u8 | 2u8 } else { 16u8 }) | 4u8 } else { if r { 16u8 | 2u8 } else { 16u8 } }
        };
        &&& q & 16u8 == 16u8
        &&& (q & 2u8 != 0) == r
        &&& (q & 4u8 != 0) == w
        &&& (q & 8u8 != 0) == x
        &&& q & 0xe1u8 == 0
    }) by (bit_vector);
}

/// The pages taken by the segments to load among the first `n` headers.
pub open spec fn load_pages(phs: Seq<ProgramHeader>, n: int) -> int
    decreases n,
{
    if n <= 0 {
        0
    } else {
        load_pages(phs, n - 1) + if is_load(phs[n - 1]) { seg_pages(phs[n - 1]) } else { 0 }
    }
}

/// The number of segments to load among the first `n` headers.
pub open spec fn load_count(phs: Seq<ProgramHeader>, n: int) -> int
    decreases n,
{
    if n <= 0 {
        0
    } else {
        load_count(phs, n - 1) + if is_load(phs[n - 1]) { 1int } else { 0int }
    }
}

/// The highest page just past a segment to load among the first `n` headers (0 if none).
pub open spec fn load_end(phs: Seq<ProgramHeader>, n: int) -> int
    decreases n,
{
    if n <= 0 {
        0
    } else {
        let e = load_end(phs, n - 1);
        if is_load(phs[n - 1]) && seg_end_vpn(phs[n - 1]) > e {
            seg_end_vpn(phs[n - 1])
        } else {
            e
        }
    }
}

/// The program headers of an ELF image.
pub open spec fn elf_segments(s: Seq<u8>) -> Seq<ProgramHeader> {
    program_headers(s, elf_header(s))
}

/// The bottom of the user stack: the first page after every segment.
pub open spec fn user_stack_bottom(s: Seq<u8>) -> int {
    load_end(elf_segments(s), elf_segments(s).len() as int) * 4096
}

/// An ELF image that can be loaded: a valid header, program headers inside the file, every
/// segment to load inside the file and the address space, and room for the user stack above
/// the segments.
pub open spec fn elf_loadable(s: Seq<u8>) -> bool {
    &&& elf_ok(s)
    &&& headers_in_bounds(s, elf_header(s))
    &&& forall|i: int|
        0 <= i < elf_segments(s).len() && is_load(#[trigger] elf_segments(s)[i]) ==> load_ok(elf_segments(s)[i], s.len() as int)
    &&& user_stack_bottom(s) + USER_STACK_SIZE + 4096 <= u64::MAX
}

/// The frames that loading an image may take from the allocator (as 2 MiB-aligned frames
/// counted by `aligned_count`): at most three per page of a segment, and nineteen for the
/// root table, the trampoline, the user stack, the trap-context frame and their tables. It is
/// a bound that suffices, not the least need: data pages may as well take recycled frames,
/// which it does not count.
pub open spec fn elf_frames_needed(s: Seq<u8>) -> int {
    3 * load_pages(elf_segments(s), elf_segments(s).len() as int) + 19
}

/// The area of a user stack whose bottom is `bottom`: framed, readable, writable and
/// user-accessible, over the `USER_STACK_SIZE / PAGE_SIZE` pages from `bottom` on, one frame
/// per page.
pub open spec fn stack_area_ok(a: MapArea, bottom: u64) -> bool {
    &&& a.vpn_range.start.0 == bottom / 4096
    &&& a.vpn_range.end.0 == bottom / 4096 + USER_STACK_SIZE / 4096
    &&& a.start_va.0 == bottom
    &&& a.map_type == MapType::Framed
    &&& a.map_perm@ == FLAG_R | FLAG_W | FLAG_U
    &&& a.data_frames@.len() == USER_STACK_SIZE / 4096
}

/// The area of the trap-context page: the one page at `TRAP_CONTEXT_USER`, fixed to its one
/// frame, readable and writable and not user-accessible.
pub open spec fn trap_area_ok(a: MapArea) -> bool {
    &&& a.vpn_range.start.0 == TRAP_CONTEXT_USER / 4096
    &&& a.vpn_range.end.0 == TRAP_CONTEXT_USER / 4096 + 1
    &&& a.start_va.0 == TRAP_CONTEXT_USER
    &&& a.data_frames@.len() == 1
    &&& a.map_type == MapType::Fixed(a.data_frames@[0])
    &&& a.map_perm@ == FLAG_R | FLAG_W
}

/// No segment to load among the first `n` headers has a page in the slot of page `v`.
pub open spec fn outside_segments(segs: Seq<ProgramHeader>, n: int, v: u64) -> bool {
    forall|i: int| 0 <= i < n && is_load(segs[i]) ==> #[trigger] seg_outside(segs[i], v)
}

/// The user stack and the trap-context page of an image get page-table slots of their own:
/// no page of a segment to load and not the trampoline shares a slot with a stack page or the
/// trap-context page, and no stack page shares the trap-context page's slot.
pub open spec fn stack_slots_free(s: Seq<u8>) -> bool {
    let segs = elf_segments(s);
    let b = user_stack_bottom(s) / 4096;
    &&& forall|k: int|
        0 <= k < USER_STACK_SIZE / 4096 ==> {
            &&& outside_segments(segs, segs.len() as int, #[trigger] ((b + k) as u64))
            &&& vpn_sv39((b + k) as u64) != vpn_sv39(trampoline_vpn(TRAMPOLINE))
            &&& vpn_sv39((b + k) as u64) != vpn_sv39(TRAP_CONTEXT_USER / 4096)
        }
    &&& outside_segments(segs, segs.len() as int, TRAP_CONTEXT_USER / 4096)
}

/// The program of image `s` is in place in the address space `ms`: each segment to load is
/// mapped with its area kept, in order, after the trampoline's, and each of its pages that has
/// a slot of its own maps with the segment's permissions (`seg_perm`); its bytes from the file can be
/// read at their addresses (unless the trap-context page shares a slot with a segment, whose
/// bytes there the trap context then covers) except where a later segment is loaded over
/// them; the last two areas are the user stack, framed and writable by the user, and the
/// trap-context page, fixed and kept from the user; and when their slots are their own, every
/// stack page maps to its frame as readable, writable and user-accessible, and the
/// trap-context page to its frame as readable and writable only.
pub open spec fn program_loaded(m: &PhysMem, ms: &MemorySet, s: Seq<u8>) -> bool {
    let root = ms.page_table.root_ppn.0;
    let segs = elf_segments(s);
    let n = segs.len() as int;
    let areas = ms.areas@;
    &&& areas.len() == load_count(segs, n) + 3
    &&& segments_mapped(m, root, areas, 1, segs, n)
    &&& leaves_have_area_perms(m, root, areas, areas.len() - 2)
    &&& outside_segments(segs, n, TRAP_CONTEXT_USER / 4096) ==> bytes_loaded(m, root, s, segs, n)
    &&& stack_area_ok(areas[areas.len() - 2], user_stack_bottom(s) as u64)
    &&& trap_area_ok(areas.last())
    &&& stack_slots_free(s) ==> forall|k: int|
        0 <= k < USER_STACK_SIZE / 4096 ==> #[trigger] walk(m, root, (user_stack_bottom(s) / 4096 + k) as u64) == Some(
            mapped_pte(areas[areas.len() - 2].data_frames@[k].0, FLAG_R | FLAG_W | FLAG_U),
        )
    &&& stack_slots_free(s) ==> walk(m, root, TRAP_CONTEXT_USER / 4096) == Some(
        mapped_pte(areas.last().data_frames@[0].0, FLAG_R | FLAG_W),
    )
}

/// Some area of the address space holds the trap-context page.
pub open spec fn covers_trap_page(areas: Seq<crate::map_area::MapArea>) -> bool {
    exists|i: int| 0 <= i < areas.len() && (#[trigger] areas[i]).vpn_range.start.0 <= TRAP_CONTEXT_USER / 4096 < areas[i].vpn_range.end.0
}

/// The area kept for a loaded segment.
pub open spec fn area_for_segment(a: MapArea, ph: ProgramHeader) -> bool {
    &&& a.vpn_range.start.0 == seg_start_vpn(ph)
    &&& a.vpn_range.end.0 == seg_end_vpn(ph)
    &&& a.start_va.0 == ph.p_vaddr
    &&& a.map_type == MapType::Framed
    &&& a.map_perm@ == seg_perm(ph.p_flags)
}

/// The slots of a segment's pages do not hold page `v`.
pub open spec fn seg_outside(ph: ProgramHeader, v: u64) -> bool {
    outside_slots(seg_start_vpn(ph) as u64, seg_pages(ph), v)
}

/// Reading the virtual addresses of a segment gives the bytes it takes from the file.
pub open spec fn seg_bytes_loaded(m: &PhysMem, root: u64, s: Seq<u8>, ph: ProgramHeader) -> bool {
    forall|k: int| 0 <= k < ph.p_filesz ==> #[trigger] user_byte(m, root, (ph.p_vaddr + k) as u64) == Some(s[ph.p_offset + k])
}

/// Addresses `a` and `b` fall in one slot of the page table at one offset: they reach the
/// same byte.
pub open spec fn same_spot(a: u64, b: u64) -> bool {
    vpn_sv39(a / 4096) == vpn_sv39(b / 4096) && a % 4096 == b % 4096
}

/// Byte `k` of segment `i` is overwritten by a later segment to load among the first `n`.
pub open spec fn overwritten(segs: Seq<ProgramHeader>, i: int, k: int, n: int) -> bool {
    exists|j: int, kj: int|
        i < j < n && is_load(segs[j]) && 0 <= kj < segs[j].p_filesz && #[trigger] same_spot(
            (segs[i].p_vaddr + k) as u64,
            (segs[j].p_vaddr + kj) as u64,
        )
}

/// Reading the virtual addresses of the segments to load among the first `n` gives the bytes
/// they take from the file, except where a later one among them is loaded over them.
pub open spec fn bytes_loaded(m: &PhysMem, root: u64, s: Seq<u8>, segs: Seq<ProgramHeader>, n: int) -> bool {
    forall|i: int, k: int|
        0 <= i < n && is_load(segs[i]) && 0 <= k < segs[i].p_filesz && !overwritten(segs, i, k, n) ==> #[trigger] user_byte(
            m,
            root,
            (segs[i].p_vaddr + k) as u64,
        ) == Some(s[segs[i].p_offset + k])
}

/// Every mapped page of the space lies in the slot of one of its areas' pages or of the
/// trampoline, and each page of an area that has a slot of its own is mapped with its area's
/// permissions.
pub open spec fn slots_follow_areas(m: &PhysMem, root: u64, areas: Seq<MapArea>) -> bool {
    &&& forall|v: u64| #[trigger] walk(m, root, v) is Some ==> !first_in_slot(areas, areas.len() as int, v)
    &&& leaves_have_area_perms(m, root, areas, areas.len() as int)
}

/// The first `i` program headers are loaded: each segment to load among them has all its
/// pages mapped and its area kept, in order, from index `base` of `areas` on.
pub open spec fn segments_mapped(m: &PhysMem, root: u64, areas: Seq<MapArea>, base: int, segs: Seq<ProgramHeader>, i: int) -> bool {
    &&& areas.len() >= base + load_count(segs, i)
    &&& forall|j: int, k: int|
        0 <= j < i && is_load(segs[j]) && 0 <= k < seg_pages(segs[j]) ==> #[trigger] walk(
            m,
            root,
            (seg_start_vpn(segs[j]) + k) as u64,
        ) is Some
    &&& forall|j: int| 0 <= j < i && is_load(segs[j]) ==> area_for_segment(areas[base + load_count(segs, j)], #[trigger] segs[j])
}

proof fn lemma_segments_mapped_step(
    m0: &PhysMem,
    m1: &PhysMem,
    root: u64,
    areas0: Seq<MapArea>,
    areas1: Seq<MapArea>,
    base: int,
    segs: Seq<ProgramHeader>,
    i: int,
)
    requires
        0 <= i < segs.len(),
        0 <= base,
        segments_mapped(m0, root, areas0, base, segs, i),
        areas0.len() == base + load_count(segs, i),
        forall|v: u64| #[trigger] walk(m0, root, v) is Some ==> walk(m1, root, v) == walk(m0, root, v),
        is_load(segs[i]) ==> {
            &&& forall|k: int| 0 <= k < seg_pages(segs[i]) ==> #[trigger] walk(m1, root, (seg_start_vpn(segs[i]) + k) as u64) is Some
            &&& areas1 == areas0.push(areas1.last())
            &&& area_for_segment(areas1.last(), segs[i])
        },
        !is_load(segs[i]) ==> areas1 == areas0,
    ensures
        segments_mapped(m1, root, areas1, base, segs, i + 1),
        areas1.len() == base + load_count(segs, i + 1),
{
    lemma_load_prefix(segs, i, i + 1);
    assert forall|j: int, k: int|
        0 <= j < i + 1 && is_load(segs[j]) && 0 <= k < seg_pages(segs[j]) implies #[trigger] walk(
            m1,
            root,
            (seg_start_vpn(segs[j]) + k) as u64,
        ) is Some by {
        if j < i {
            assert(walk(m0, root, (seg_start_vpn(segs[j]) + k) as u64) is Some);
        }
    }
    assert forall|j: int| 0 <= j < i + 1 && is_load(segs[j]) implies area_for_segment(areas1[base + load_count(segs, j)], #[trigger] segs[j]) by {
        if j < i {
            lemma_load_prefix(segs, j, i);
            lemma_load_prefix(segs, j + 1, i);
            assert(areas1[base + load_count(segs, j)] == areas0[base + load_count(segs, j)]);
        }
    }
}

/// The loaded bytes of the first `n` segments stay loaded while their pages keep their
/// mappings and their frames keep their contents.
proof fn lemma_bytes_loaded_keep(m0: &PhysMem, m1: &PhysMem, root: u64, s: Seq<u8>, segs: Seq<ProgramHeader>, n: int)
    requires
        forall|i: int| 0 <= i < n && is_load(#[trigger] segs[i]) ==> load_ok(segs[i], s.len() as int),
        bytes_loaded(m0, root, s, segs, n),
        forall|v: u64| #[trigger] walk(m0, root, v) is Some ==> walk(m1, root, v) == walk(m0, root, v),
        forall|i: int, k: int|
            0 <= i < n && is_load(segs[i]) && 0 <= k < seg_pages(segs[i]) ==> #[trigger] m1.frame(
                pte_ppn(walk(m0, root, (seg_start_vpn(segs[i]) + k) as u64)->0),
            ) == m0.frame(pte_ppn(walk(m0, root, (seg_start_vpn(segs[i]) + k) as u64)->0)),
    ensures
        bytes_loaded(m1, root, s, segs, n),
{
    assert forall|i: int, k: int|
        0 <= i < n && is_load(segs[i]) && 0 <= k < segs[i].p_filesz && !overwritten(segs, i, k, n) implies #[trigger] user_byte(
        m1,
        root,
        (segs[i].p_vaddr + k) as u64,
    ) == Some(s[segs[i].p_offset + k]) by {
        let ph = segs[i];
        assert(load_ok(ph, s.len() as int));
        let va = (ph.p_vaddr + k) as u64;
        assert(user_byte(m0, root, va) == Some(s[ph.p_offset + k]));
        law_translate_keeps_offset(m0, root, va);
        let page = va / 4096;
        let j = page - seg_start_vpn(ph);
        assert(ph.p_vaddr / 4096 <= (ph.p_vaddr + k) / 4096);
        assert((ph.p_vaddr + k) / 4096 < (ph.p_vaddr + ph.p_memsz + 4095) / 4096);
        assert(0 <= j < seg_pages(ph));
        assert(page == (seg_start_vpn(ph) + j) as u64);
        assert(m1.frame(pte_ppn(walk(m0, root, (seg_start_vpn(segs[i]) + j) as u64)->0)) == m0.frame(
            pte_ppn(walk(m0, root, (seg_start_vpn(segs[i]) + j) as u64)->0),
        ));
        assert(walk(m1, root, page) == walk(m0, root, page));
    }
}

/// After the one page `tv` is mapped to the fresh frame `f`, a mapped page either keeps the
/// leaf it had, or sits in the slot of `tv`, newly mapped to `f`, which no earlier leaf uses.
proof fn lemma_trap_leaf(m1: &PhysMem, m2: &PhysMem, root: u64, a1: FrameAllocState, tv: u64, f: u64, perm: u8, v: u64)
    requires
        leaves_ok(m1, root, a1),
        a1.is_free(f),
        pte_ppn(mapped_pte(f, perm)) == f,
        walk(m2, root, (tv + 0) as u64) == mapped_walk(m1, root, (tv + 0) as u64, f, perm),
        forall|w: u64| outside_slots(tv, 1, w) ==> #[trigger] walk(m2, root, w) == walk(m1, root, w),
        walk(m2, root, v) is Some,
    ensures
        walk(m2, root, v) == walk(m1, root, v) || (walk(m1, root, v) is None && walk(m2, root, v) == Some(mapped_pte(f, perm))
            && vpn_sv39(v) == vpn_sv39(tv)),
        forall|w: u64| #[trigger] walk(m1, root, w) is Some ==> pte_ppn(walk(m1, root, w)->0) != f,
{
    assert forall|w: u64| #[trigger] walk(m1, root, w) is Some implies pte_ppn(walk(m1, root, w)->0) != f by {
        assert(!a1.is_free(pte_ppn(walk(m1, root, w)->0)));
    }
    if !outside_slots(tv, 1, v) {
        assert(vpn_sv39(v) == vpn_sv39((tv + 0) as u64));
        law_walk_uses_sv39_bits(m1, root, v, (tv + 0) as u64);
        law_walk_uses_sv39_bits(m2, root, v, (tv + 0) as u64);
    }
}

/// With the stack and trap-context slots free of segments and of the trampoline, the stack
/// pages and the trap-context page are still unmapped once the segments are loaded into a
/// space that mapped only the trampoline.
proof fn lemma_stack_slots_unmapped(m1: &PhysMem, m2: &PhysMem, root: u64, s: Seq<u8>)
    requires
        stack_slots_free(s),
        forall|v: u64| #[trigger] walk(m1, root, v) is Some ==> vpn_sv39(v) == vpn_sv39(trampoline_vpn(TRAMPOLINE)),
        forall|v: u64|
            outside_segments(elf_segments(s), elf_segments(s).len() as int, v) ==> #[trigger] walk(m2, root, v) == walk(m1, root, v),
    ensures
        forall|k: int|
            0 <= k < USER_STACK_SIZE / 4096 ==> #[trigger] walk(m2, root, (user_stack_bottom(s) / 4096 + k) as u64) is None,
        forall|k: int|
            0 <= k < USER_STACK_SIZE / 4096 ==> vpn_sv39(#[trigger] ((user_stack_bottom(s) / 4096 + k) as u64)) != vpn_sv39(
                TRAP_CONTEXT_USER / 4096,
            ),
        walk(m2, root, TRAP_CONTEXT_USER / 4096) is None,
{
    let segs = elf_segments(s);
    let b = user_stack_bottom(s) / 4096;
    crate::address::lemma_high_pages();
    assert forall|k: int| 0 <= k < USER_STACK_SIZE / 4096 implies #[trigger] walk(m2, root, (b + k) as u64) is None by {
        assert(outside_segments(segs, segs.len() as int, (b + k) as u64));
        assert(walk(m1, root, (b + k) as u64) is None);
    }
    assert forall|k: int| 0 <= k < USER_STACK_SIZE / 4096 implies vpn_sv39(#[trigger] ((b + k) as u64)) != vpn_sv39(
        TRAP_CONTEXT_USER / 4096,
    ) by {
        assert(outside_segments(segs, segs.len() as int, (b + k) as u64));
    }
    assert(walk(m1, root, TRAP_CONTEXT_USER / 4096) is None);
}

/// Writing the trap-context frame keeps the program in place when no walk changes, no other
/// frame changes and the leaves of different slots are different frames.
pub(crate) proof fn lemma_program_loaded_store(m2: &PhysMem, m3: &PhysMem, ms: &MemorySet, s: Seq<u8>)
    requires
        elf_loadable(s),
        program_loaded(m2, ms, s),
        leaves_distinct(m2, ms.page_table.root_ppn.0),
        walk(m2, ms.page_table.root_ppn.0, TRAP_CONTEXT_USER / 4096) is Some,
        forall|v: u64| #[trigger] walk(m3, ms.page_table.root_ppn.0, v) == walk(m2, ms.page_table.root_ppn.0, v),
        forall|p: u64|
            p != pte_ppn(walk(m2, ms.page_table.root_ppn.0, TRAP_CONTEXT_USER / 4096)->0) ==> #[trigger] m3.frame(p) == m2.frame(p),
    ensures
        program_loaded(m3, ms, s),
{
    let root = ms.page_table.root_ppn.0;
    let segs = elf_segments(s);
    let n = segs.len() as int;
    let tv = TRAP_CONTEXT_USER / 4096;
    if outside_segments(segs, n, tv) {
        assert forall|i: int, k: int|
            0 <= i < n && is_load(segs[i]) && 0 <= k < seg_pages(segs[i]) implies #[trigger] m3.frame(
            pte_ppn(walk(m2, root, (seg_start_vpn(segs[i]) + k) as u64)->0),
        ) == m2.frame(pte_ppn(walk(m2, root, (seg_start_vpn(segs[i]) + k) as u64)->0)) by {
            let w = (seg_start_vpn(segs[i]) + k) as u64;
            assert(load_ok(segs[i], s.len() as int));
            assert(walk(m2, root, w) is Some);
            assert(seg_outside(segs[i], tv));
            assert(((seg_start_vpn(segs[i]) as u64) + k) as u64 == w);
            assert(vpn_sv39(tv) != vpn_sv39(w));
        }
        lemma_bytes_loaded_keep(m2, m3, root, s, segs, n);
    }
    assert forall|j: int, k: int|
        0 <= j < n && is_load(segs[j]) && 0 <= k < seg_pages(segs[j]) implies #[trigger] walk(
        m3,
        root,
        (seg_start_vpn(segs[j]) + k) as u64,
    ) is Some by {
        assert(walk(m2, root, (seg_start_vpn(segs[j]) + k) as u64) is Some);
    }
    lemma_load_prefix(segs, n, n);
    lemma_area_perms_keep(m2, m3, root, ms.areas@, ms.areas@, ms.areas@.len() - 2);
}

/// The leaves that mapping the stack pages from `sb` (framed, `frames`, `sperm`) and then the
/// trap-context page (to `f`, `tperm`) leave: a stack page unmapped before and outside the
/// trap-context slot maps to its frame with `sperm`; the trap-context page, unmapped before and
/// outside the stack's slots, maps to `f` with `tperm`; pages of different slots keep different
/// frames.
proof fn lemma_stack_and_trap_leaves(
    m0: &PhysMem,
    m1: &PhysMem,
    m2: &PhysMem,
    root: u64,
    a0: FrameAllocState,
    a1: FrameAllocState,
    sb: u64,
    frames: Seq<crate::address::PhysPageNum>,
    f: u64,
    sperm: u8,
    tperm: u8,
)
    requires
        sperm == FLAG_R | FLAG_W | FLAG_U,
        tperm == FLAG_R | FLAG_W,
        f < 0x1000_0000_0000,
        forall|k: int|
            0 <= k < USER_STACK_SIZE / 4096 ==> #[trigger] walk(m1, root, (sb + k) as u64) == mapped_walk(
                m0,
                root,
                (sb + k) as u64,
                area_ppn(MapType::Framed, frames, 0, sb, k),
                sperm,
            ),
        forall|v: u64| outside_slots(sb, (USER_STACK_SIZE / 4096) as int, v) ==> #[trigger] walk(m1, root, v) == walk(m0, root, v),
        walk(m2, root, (TRAP_CONTEXT_USER / 4096 + 0) as u64) == mapped_walk(m1, root, (TRAP_CONTEXT_USER / 4096 + 0) as u64, f, tperm),
        forall|v: u64| outside_slots(TRAP_CONTEXT_USER / 4096, 1, v) ==> #[trigger] walk(m2, root, v) == walk(m1, root, v),
        leaves_ok(m0, root, a0) && leaves_distinct(m0, root) ==> leaves_ok(m1, root, a1) && leaves_distinct(m1, root),
        a1.is_free(f),
    ensures
        forall|k: int|
            0 <= k < USER_STACK_SIZE / 4096 && walk(m0, root, (sb + k) as u64) is None && vpn_sv39((sb + k) as u64) != vpn_sv39(
                TRAP_CONTEXT_USER / 4096,
            ) ==> #[trigger] walk(m2, root, (sb + k) as u64) == Some(mapped_pte(frames[k].0, FLAG_R | FLAG_W | FLAG_U)),
        walk(m0, root, TRAP_CONTEXT_USER / 4096) is None && (forall|k: int|
            0 <= k < USER_STACK_SIZE / 4096 ==> vpn_sv39(#[trigger] ((sb + k) as u64)) != vpn_sv39(TRAP_CONTEXT_USER / 4096))
            ==> walk(m2, root, TRAP_CONTEXT_USER / 4096) == Some(mapped_pte(f, FLAG_R | FLAG_W)),
        leaves_ok(m0, root, a0) && leaves_distinct(m0, root) ==> leaves_distinct(m2, root),
{
    let tvpn = TRAP_CONTEXT_USER / 4096;
    assert forall|k: int|
        0 <= k < USER_STACK_SIZE / 4096 && walk(m0, root, (sb + k) as u64) is None && vpn_sv39((sb + k) as u64) != vpn_sv39(tvpn)
        implies #[trigger] walk(m2, root, (sb + k) as u64) == Some(mapped_pte(frames[k].0, FLAG_R | FLAG_W | FLAG_U)) by {
        let v = (sb + k) as u64;
        assert(walk(m1, root, v) == mapped_walk(m0, root, v, frames[0 + k].0, sperm));
        assert(outside_slots(tvpn, 1, v)) by {
            assert forall|j: int| 0 <= j < 1 implies vpn_sv39(v) != #[trigger] vpn_sv39((tvpn + j) as u64) by {
                assert((tvpn + j) as u64 == tvpn);
            }
        }
    }
    if walk(m0, root, tvpn) is None && (forall|k: int|
        0 <= k < USER_STACK_SIZE / 4096 ==> vpn_sv39(#[trigger] ((sb + k) as u64)) != vpn_sv39(tvpn)) {
        assert(outside_slots(sb, (USER_STACK_SIZE / 4096) as int, tvpn)) by {
            assert forall|j: int| 0 <= j < USER_STACK_SIZE / 4096 implies vpn_sv39(tvpn) != #[trigger] vpn_sv39((sb + j) as u64) by {
                assert(vpn_sv39(((sb + j) as u64)) != vpn_sv39(tvpn));
            }
        }
        assert(walk(m1, root, tvpn) is None);
        assert((tvpn + 0) as u64 == tvpn);
    }
    if leaves_ok(m0, root, a0) && leaves_distinct(m0, root) {
        law_pte_roundtrip(f, tperm | crate::pte::FLAG_V);
        assert forall|v1: u64, v2: u64|
            #[trigger] walk(m2, root, v1) is Some && #[trigger] walk(m2, root, v2) is Some && vpn_sv39(v1) != vpn_sv39(v2)
            implies pte_ppn(walk(m2, root, v1)->0) != pte_ppn(walk(m2, root, v2)->0) by {
            lemma_trap_leaf(m1, m2, root, a1, tvpn, f, tperm, v1);
            lemma_trap_leaf(m1, m2, root, a1, tvpn, f, tperm, v2);
        }
    }
}

/// Pushing one framed area (mapped with fresh frames `frames`) onto `areas0` keeps the mapped
/// pages in the slots of the areas, and maps each of its pages that has a slot of its own with
/// its permissions.
proof fn lemma_slots_step(m0: &PhysMem, m1: &PhysMem, root: u64, areas0: Seq<MapArea>, areas1: Seq<MapArea>, frames: Seq<crate::address::PhysPageNum>)
    requires
        slots_follow_areas(m0, root, areas0),
        areas1 == areas0.push(areas1.last()),
        forall|k: int|
            0 <= k < areas1.last().vpn_range.len() ==> #[trigger] walk(m1, root, (areas1.last().vpn_range.start.0 + k) as u64)
                == mapped_walk(
                m0,
                root,
                (areas1.last().vpn_range.start.0 + k) as u64,
                area_ppn(MapType::Framed, frames, 0, areas1.last().vpn_range.start.0, k),
                areas1.last().map_perm@,
            ),
        forall|v: u64|
            outside_slots(areas1.last().vpn_range.start.0, areas1.last().vpn_range.len() as int, v) ==> #[trigger] walk(m1, root, v)
                == walk(m0, root, v),
        forall|v: u64| #[trigger] walk(m0, root, v) is Some ==> walk(m1, root, v) == walk(m0, root, v),
    ensures
        slots_follow_areas(m1, root, areas1),
{
    let i = areas0.len() as int;
    assert forall|v: u64| #[trigger] walk(m0, root, v) is Some implies !first_in_slot(areas1, i, v) by {
        assert(!first_in_slot(areas0, i, v));
        if vpn_sv39(v) != vpn_sv39(trampoline_vpn(TRAMPOLINE)) {
            let (j, k) = choose|j: int, k: int|
                0 <= j < i && 0 <= k < areas0[j].vpn_range.len() && vpn_sv39(v) == #[trigger] vpn_sv39(
                    (areas0[j].vpn_range.start.0 + k) as u64,
                );
            assert(areas1[j] == areas0[j]);
            assert(vpn_sv39(v) == vpn_sv39((areas1[j].vpn_range.start.0 + k) as u64));
        }
    }
    assert forall|j: int, k: int|
        0 <= j < i && 0 <= k < areas1[j].vpn_range.len() && first_in_slot(areas1, j, (areas1[j].vpn_range.start.0 + k) as u64)
            implies #[trigger] walk(m0, root, (areas1[j].vpn_range.start.0 + k) as u64) is Some && crate::pte::pte_bits_flags(
        walk(m0, root, (areas1[j].vpn_range.start.0 + k) as u64)->0.bits,
    ) == areas1[j].map_perm@ | crate::pte::FLAG_V by {
        assert(areas1[j] == areas0[j]);
        assert forall|jj: int, kk: int| 0 <= jj < j && 0 <= kk < areas0[jj].vpn_range.len() implies vpn_sv39(
            (areas0[j].vpn_range.start.0 + k) as u64,
        ) != #[trigger] vpn_sv39((areas0[jj].vpn_range.start.0 + kk) as u64) by {
            assert(areas1[jj] == areas0[jj]);
            assert(vpn_sv39((areas1[j].vpn_range.start.0 + k) as u64) != vpn_sv39((areas1[jj].vpn_range.start.0 + kk) as u64));
        }
        assert(first_in_slot(areas0, j, (areas0[j].vpn_range.start.0 + k) as u64));
    }
    assert(leaves_have_area_perms(m0, root, areas1, i));
    lemma_copy_slots_step(m0, m1, root, areas1, i, areas1.last().map_perm@, frames);
}

/// A space that maps only the trampoline, with the trampoline's area as its one area, has its
/// mapped pages in the slots of its areas.
proof fn lemma_slots_after_trampoline(m: &PhysMem, root: u64, areas: Seq<MapArea>)
    requires
        areas.len() == 1,
        areas[0].vpn_range.start.0 == TRAMPOLINE / 4096,
        areas[0].vpn_range.end.0 == TRAMPOLINE / 4096 + 1,
        forall|v: u64| #[trigger] walk(m, root, v) is Some ==> vpn_sv39(v) == vpn_sv39(trampoline_vpn(TRAMPOLINE)),
    ensures
        slots_follow_areas(m, root, areas),
{
    crate::address::lemma_high_pages();
    assert(vpn_sv39((TRAMPOLINE / 4096 + 0) as u64) == vpn_sv39(trampoline_vpn(TRAMPOLINE)));
}

/// The pages of the first `n` areas keep the permissions of their areas while every mapped
/// page stays as it is and those areas stay.
proof fn lemma_area_perms_keep(m0: &PhysMem, m1: &PhysMem, root: u64, areas0: Seq<MapArea>, areas1: Seq<MapArea>, n: int)
    requires
        leaves_have_area_perms(m0, root, areas0, n),
        0 <= n <= areas0.len(),
        n <= areas1.len(),
        forall|j: int| 0 <= j < n ==> #[trigger] areas1[j] == areas0[j],
        forall|v: u64| #[trigger] walk(m0, root, v) is Some ==> walk(m1, root, v) == walk(m0, root, v),
    ensures
        leaves_have_area_perms(m1, root, areas1, n),
{
    assert forall|j: int, k: int|
        0 <= j < n && 0 <= k < areas1[j].vpn_range.len() && first_in_slot(areas1, j, (areas1[j].vpn_range.start.0 + k) as u64)
            implies #[trigger] walk(m1, root, (areas1[j].vpn_range.start.0 + k) as u64) is Some && crate::pte::pte_bits_flags(
        walk(m1, root, (areas1[j].vpn_range.start.0 + k) as u64)->0.bits,
    ) == areas1[j].map_perm@ | crate::pte::FLAG_V by {
        assert(areas1[j] == areas0[j]);
        assert forall|jj: int, kk: int| 0 <= jj < j && 0 <= kk < areas0[jj].vpn_range.len() implies vpn_sv39(
            (areas0[j].vpn_range.start.0 + k) as u64,
        ) != #[trigger] vpn_sv39((areas0[jj].vpn_range.start.0 + kk) as u64) by {
            assert(areas1[jj] == areas0[jj]);
            assert(vpn_sv39((areas1[j].vpn_range.start.0 + k) as u64) != vpn_sv39((areas1[jj].vpn_range.start.0 + kk) as u64));
        }
        assert(first_in_slot(areas0, j, (areas0[j].vpn_range.start.0 + k) as u64));
        assert(walk(m0, root, (areas0[j].vpn_range.start.0 + k) as u64) is Some);
    }
}

/// In a space where the program of image `s` is in place, page `k` of segment `i` (one to
/// load), when it has a page-table slot of its own, is mapped with a leaf whose flags follow
/// the segment's ELF flags: V and U always, R exactly when `PF_R` (bit 2) is set, W exactly
/// when `PF_W` (bit 1) is set, X exactly when `PF_X` (bit 0) is set.
pub proof fn law_segment_pages_flags(m: &PhysMem, ms: &MemorySet, s: Seq<u8>, i: int, k: int)
    requires
        program_loaded(m, ms, s),
        0 <= i < elf_segments(s).len(),
        is_load(elf_segments(s)[i]),
        0 <= k < seg_pages(elf_segments(s)[i]),
        first_in_slot(
            ms.areas@,
            1 + load_count(elf_segments(s), i),
            (seg_start_vpn(elf_segments(s)[i]) + k) as u64,
        ),
    ensures
        ({
            let ph = elf_segments(s)[i];
            let e = walk(m, ms.page_table.root_ppn.0, (seg_start_vpn(ph) + k) as u64);
            let fl = crate::pte::pte_bits_flags(e->0.bits);
            &&& e is Some
            &&& fl & crate::pte::FLAG_V != 0
            &&& fl & FLAG_U != 0
            &&& (fl & FLAG_R != 0) == (ph.p_flags & 4 != 0)
            &&& (fl & FLAG_W != 0) == (ph.p_flags & 2 != 0)
            &&& (fl & FLAG_X != 0) == (ph.p_flags & 1 != 0)
        }),
{
    let segs = elf_segments(s);
    let ph = segs[i];
    let root = ms.page_table.root_ppn.0;
    let areas = ms.areas@;
    let j = 1 + load_count(segs, i);
    lemma_load_prefix(segs, i + 1, segs.len() as int);
    lemma_load_prefix(segs, i, i + 1);
    assert(area_for_segment(areas[j], ph));
    assert(j < areas.len() - 2);
    assert((areas[j].vpn_range.start.0 + k) as u64 == (seg_start_vpn(ph) + k) as u64);
    assert(walk(m, root, (areas[j].vpn_range.start.0 + k) as u64) is Some);
    law_segment_permissions(ph.p_flags);
    let p = seg_perm(ph.p_flags);
    let fl = p | crate::pte::FLAG_V;
    assert({
        &&& fl & 1u8 != 0
        &&& (fl & 16u8 != 0) == (p & 16u8 != 0)
        &&& (fl & 2u8 != 0) == (p & 2u8 != 0)
        &&& (fl & 4u8 != 0) == (p & 4u8 != 0)
        &&& (fl & 8u8 != 0) == (p & 8u8 != 0)
    }) by (bit_vector)
        requires
            fl == p | 1u8,
    ;
}

/// Loaded segments stay loaded while every mapped page stays as it is and the areas only
/// grow.
proof fn lemma_segments_mapped_keep(
    m0: &PhysMem,
    m1: &PhysMem,
    root: u64,
    areas0: Seq<MapArea>,
    areas1: Seq<MapArea>,
    base: int,
    segs: Seq<ProgramHeader>,
    i: int,
)
    requires
        0 <= base,
        0 <= i <= segs.len(),
        segments_mapped(m0, root, areas0, base, segs, i),
        forall|v: u64| #[trigger] walk(m0, root, v) is Some ==> walk(m1, root, v) == walk(m0, root, v),
        areas0.is_prefix_of(areas1),
    ensures
        segments_mapped(m1, root, areas1, base, segs, i),
{
    assert forall|j: int, k: int|
        0 <= j < i && is_load(segs[j]) && 0 <= k < seg_pages(segs[j]) implies #[trigger] walk(
            m1,
            root,
            (seg_start_vpn(segs[j]) + k) as u64,
        ) is Some by {
        assert(walk(m0, root, (seg_start_vpn(segs[j]) + k) as u64) is Some);
    }
    assert forall|j: int| 0 <= j < i && is_load(segs[j]) implies area_for_segment(areas1[base + load_count(segs, j)], #[trigger] segs[j]) by {
        lemma_load_prefix(segs, j, i);
        lemma_load_prefix(segs, j + 1, i);
        assert(areas0[base + load_count(segs, j)] == areas1[base + load_count(segs, j)]);
    }
}

proof fn lemma_load_prefix(phs: Seq<ProgramHeader>, i: int, n: int)
    requires
        0 <= i <= n,
    ensures
        load_pages(phs, i) <= load_pages(phs, n),
        load_end(phs, i) <= load_end(phs, n),
        0 <= load_pages(phs, i),
        0 <= load_end(phs, i),
        0 <= load_count(phs, i) <= i,
        load_count(phs, i) <= load_count(phs, n),
        i < n ==> load_count(phs, i + 1) == load_count(phs, i) + (if is_load(phs[i]) { 1int } else { 0int }),
    decreases n,
{
    if i < n {
        lemma_load_prefix(phs, i, n - 1);
    } else if n > 0 {
        lemma_load_prefix(phs, n - 1, n - 1);
    }
}


impl MemorySet {
    /// Pushes every segment to load of `phs`, in order; returns the highest page just past
    /// one of them (0 if there is none).
    fn push_segments(&mut self, mem: &mut PhysMem, allocator: &mut FrameAllocator, elf_data: &[u8], phs: &Vec<ProgramHeader>) -> (max_end: u64)
        requires
            forall|i: int| 0 <= i < phs@.len() && is_load(#[trigger] phs@[i]) ==> load_ok(phs@[i], elf_data@.len() as int),
            space_ok(old(mem), old(self), old(allocator)@),
            leaves_ok(old(mem), old(self).page_table.root_ppn.0, old(allocator)@),
            old(allocator)@.aligned_count() >= 3 * load_pages(phs@, phs@.len() as int),
            leaves_distinct(old(mem), old(self).page_table.root_ppn.0),
            slots_follow_areas(old(mem), old(self).page_table.root_ppn.0, old(self).areas@),
        ensures
            leaves_distinct(final(mem), final(self).page_table.root_ppn.0),
            slots_follow_areas(final(mem), final(self).page_table.root_ppn.0, final(self).areas@),
            bytes_loaded(final(mem), final(self).page_table.root_ppn.0, elf_data@, phs@, phs@.len() as int),
            final(self).page_table.root_ppn == old(self).page_table.root_ppn,
            space_ok(final(mem), final(self), final(allocator)@),
            leaves_ok(final(mem), final(self).page_table.root_ppn.0, final(allocator)@),
            alloc_shrinks(old(allocator)@, final(allocator)@),
            final(allocator)@.aligned_count() >= old(allocator)@.aligned_count() - 3 * load_pages(phs@, phs@.len() as int),
            max_end == load_end(phs@, phs@.len() as int),
            forall|v: u64|
                #[trigger] walk(old(mem), old(self).page_table.root_ppn.0, v) is Some ==> walk(
                    final(mem),
                    final(self).page_table.root_ppn.0,
                    v,
                ) == walk(old(mem), old(self).page_table.root_ppn.0, v),
            old(self).areas@.is_prefix_of(final(self).areas@),
            final(self).areas@.len() == old(self).areas@.len() + load_count(phs@, phs@.len() as int),
            segments_mapped(final(mem), final(self).page_table.root_ppn.0, final(self).areas@, old(self).areas@.len() as int, phs@, phs@.len() as int),
            areas_mapped(final(mem), final(self).page_table.root_ppn.0, final(self).areas@, old(self).areas@.len() as int),
            forall|v: u64|
                outside_segments(phs@, phs@.len() as int, v) ==> #[trigger] walk(final(mem), final(self).page_table.root_ppn.0, v) == walk(
                    old(mem),
                    old(self).page_table.root_ppn.0,
                    v,
                ),
    {
        let ghost root = self.page_table.root_ppn.0;
        let ghost m_in = *mem;
        let ghost a_in = allocator@;
        let ghost segs = phs@;
        let ghost total = segs.len() as int;
        let ghost base = self.areas@.len() as int;
        let ghost areas_in = self.areas@;
        let mut max_end_vpn: u64 = 0;
        let mut i: usize = 0;
        proof {
            lemma_load_prefix(segs, 0, total);
            lemma_load_prefix(segs, total, total);
            assert(self.areas@ =~= areas_in);
        }
        while i < phs.len()
            invariant
                segs == phs@,
                total == segs.len(),
                base == areas_in.len(),
                forall|j: int| 0 <= j < segs.len() && is_load(#[trigger] segs[j]) ==> load_ok(segs[j], elf_data@.len() as int),
                i <= total,
                self.page_table.root_ppn.0 == root,
                space_ok(mem, self, allocator@),
                leaves_ok(mem, root, allocator@),
                alloc_shrinks(a_in, allocator@),
                allocator@.aligned_count() >= a_in.aligned_count() - 3 * load_pages(segs, i as int),
                a_in.aligned_count() >= 3 * load_pages(segs, total),
                max_end_vpn == load_end(segs, i as int),
                forall|v: u64| #[trigger] walk(&m_in, root, v) is Some ==> walk(mem, root, v) == walk(&m_in, root, v),
                areas_in.is_prefix_of(self.areas@),
                self.areas@.len() == base + load_count(segs, i as int),
                segments_mapped(mem, root, self.areas@, base, segs, i as int),
                leaves_distinct(mem, root),
                bytes_loaded(mem, root, elf_data@, segs, i as int),
                areas_mapped(mem, root, self.areas@, base),
                forall|v: u64| outside_segments(segs, i as int, v) ==> #[trigger] walk(mem, root, v) == walk(&m_in, root, v),
                slots_follow_areas(mem, root, self.areas@),
            decreases total - i,
        {
            let ph = phs[i];
            proof {
                lemma_load_prefix(segs, i + 1, total);
                lemma_load_prefix(segs, i as int, i + 1);
            }
            let ghost m0 = *mem;
            let ghost areas0 = self.areas@;
            if ph.p_type == 1 {
                proof {
                    assert(is_load(segs[i as int]));
                }
                self.push_segment(mem, allocator, elf_data, ph);
                proof {
                    let n0 = areas0.len() as int;
                    assert forall|k: int| 0 <= k < self.areas@[n0].vpn_range.len() implies #[trigger] walk(
                        mem,
                        root,
                        (self.areas@[n0].vpn_range.start.0 + k) as u64,
                    ) is Some by {
                        assert(walk(mem, root, (seg_start_vpn(ph) + k) as u64) is Some);
                    }
                    assert(areas_mapped(mem, root, self.areas@, n0));
                    lemma_areas_mapped_keep(&m0, mem, root, areas0, self.areas@, base);
                    assert forall|j: int, k: int|
                        0 <= j < i + 1 && is_load(segs[j]) && 0 <= k < segs[j].p_filesz && !overwritten(segs, j, k, i + 1) implies #[trigger] user_byte(
                        mem,
                        root,
                        (segs[j].p_vaddr + k) as u64,
                    ) == Some(elf_data@[segs[j].p_offset + k]) by {
                        let va = (segs[j].p_vaddr + k) as u64;
                        if j == i {
                            assert(seg_bytes_loaded(mem, root, elf_data@, ph));
                        } else {
                            assert(!overwritten(segs, j, k, i as int)) by {
                                if overwritten(segs, j, k, i as int) {
                                    let (jj, kj) = choose|jj: int, kj: int|
                                        j < jj < i && is_load(segs[jj]) && 0 <= kj < segs[jj].p_filesz && #[trigger] same_spot(
                                            (segs[j].p_vaddr + k) as u64,
                                            (segs[jj].p_vaddr + kj) as u64,
                                        );
                                    assert(same_spot((segs[j].p_vaddr + k) as u64, (segs[jj].p_vaddr + kj) as u64));
                                }
                            }
                            assert(user_byte(&m0, root, va) == Some(elf_data@[segs[j].p_offset + k]));
                            assert forall|kk: int| 0 <= kk < ph.p_filesz implies !#[trigger] same_spot(va, (ph.p_vaddr + kk) as u64) by {
                                if same_spot(va, (ph.p_vaddr + kk) as u64) {
                                    assert(same_spot((segs[j].p_vaddr + k) as u64, (segs[i as int].p_vaddr + kk) as u64));
                                }
                            }
                            assert(walk(&m0, root, va / 4096) is Some);
                        }
                    }
                }
                let end_vpn = VirtAddr::from(ph.p_vaddr + ph.p_memsz).ceil();
                if end_vpn.0 > max_end_vpn {
                    max_end_vpn = end_vpn.0;
                }
                proof {
                    assert(areas_in.is_prefix_of(self.areas@)) by {
                        assert forall|j: int| 0 <= j < areas_in.len() implies self.areas@[j] == areas_in[j] by {
                            assert(self.areas@[j] == areas0[j]);
                        }
                    }
                }
            } else {
                proof {
                    assert forall|j: int, k: int|
                        0 <= j < i + 1 && is_load(segs[j]) && 0 <= k < segs[j].p_filesz && !overwritten(segs, j, k, i + 1) implies #[trigger] user_byte(
                        mem,
                        root,
                        (segs[j].p_vaddr + k) as u64,
                    ) == Some(elf_data@[segs[j].p_offset + k]) by {
                        assert(j != i);
                        assert(!overwritten(segs, j, k, i as int)) by {
                            if overwritten(segs, j, k, i as int) {
                                let (jj, kj) = choose|jj: int, kj: int|
                                    j < jj < i && is_load(segs[jj]) && 0 <= kj < segs[jj].p_filesz && #[trigger] same_spot(
                                        (segs[j].p_vaddr + k) as u64,
                                        (segs[jj].p_vaddr + kj) as u64,
                                    );
                                assert(same_spot((segs[j].p_vaddr + k) as u64, (segs[jj].p_vaddr + kj) as u64));
                            }
                        }
                    }
                }
            }
            proof {
                lemma_segments_mapped_step(&m0, mem, root, areas0, self.areas@, base, segs, i as int);
            }
            i = i + 1;
        }
        max_end_vpn
    }

    /// Maps a segment to load as a framed area with its permissions, and copies its bytes
    /// from the file to its start.
    #[verifier::rlimit(40)]
    fn push_segment(&mut self, mem: &mut PhysMem, allocator: &mut FrameAllocator, elf_data: &[u8], ph: ProgramHeader)
        requires
            is_load(ph),
            load_ok(ph, elf_data@.len() as int),
            space_ok(old(mem), old(self), old(allocator)@),
            leaves_ok(old(mem), old(self).page_table.root_ppn.0, old(allocator)@),
            old(allocator)@.aligned_count() >= 3 * seg_pages(ph),
        ensures
            final(self).page_table.root_ppn == old(self).page_table.root_ppn,
            space_ok(final(mem), final(self), final(allocator)@),
            leaves_ok(final(mem), final(self).page_table.root_ppn.0, final(allocator)@),
            alloc_shrinks(old(allocator)@, final(allocator)@),
            final(allocator)@.aligned_count() >= old(allocator)@.aligned_count() - 3 * seg_pages(ph),
            forall|v: u64|
                #[trigger] walk(old(mem), old(self).page_table.root_ppn.0, v) is Some ==> walk(
                    final(mem),
                    final(self).page_table.root_ppn.0,
                    v,
                ) == walk(old(mem), old(self).page_table.root_ppn.0, v),
            forall|k: int|
                0 <= k < seg_pages(ph) ==> #[trigger] walk(final(mem), final(self).page_table.root_ppn.0, (seg_start_vpn(ph) + k) as u64)
                    is Some,
            final(self).areas@ == old(self).areas@.push(final(self).areas@.last()),
            area_for_segment(final(self).areas@.last(), ph),
            slots_follow_areas(old(mem), old(self).page_table.root_ppn.0, old(self).areas@) ==> slots_follow_areas(
                final(mem),
                final(self).page_table.root_ppn.0,
                final(self).areas@,
            ),
            forall|v: u64| seg_outside(ph, v) ==> #[trigger] walk(final(mem), final(self).page_table.root_ppn.0, v) == walk(
                old(mem),
                old(self).page_table.root_ppn.0,
                v,
            ),
            leaves_distinct(old(mem), old(self).page_table.root_ppn.0) ==> {
                &&& leaves_distinct(final(mem), final(self).page_table.root_ppn.0)
                &&& seg_bytes_loaded(final(mem), final(self).page_table.root_ppn.0, elf_data@, ph)
                &&& forall|va: u64|
                    walk(old(mem), old(self).page_table.root_ppn.0, va / 4096) is Some && (forall|kk: int|
                        0 <= kk < ph.p_filesz ==> !#[trigger] same_spot(va, (ph.p_vaddr + kk) as u64)) ==> #[trigger] user_byte(
                        final(mem),
                        final(self).page_table.root_ppn.0,
                        va,
                    ) == user_byte(old(mem), old(self).page_table.root_ppn.0, va)
                &&& forall|v: u64|
                    #[trigger] walk(old(mem), old(self).page_table.root_ppn.0, v) is Some && seg_outside(ph, v) ==> final(mem).frame(
                        pte_ppn(walk(old(mem), old(self).page_table.root_ppn.0, v)->0),
                    ) == old(mem).frame(pte_ppn(walk(old(mem), old(self).page_table.root_ppn.0, v)->0))
            },
    {
        let ghost root = self.page_table.root_ppn.0;
        let ghost m0 = *mem;
        let ghost a0 = allocator@;
        let n = elf_data.len();
        let vaddr = ph.p_vaddr;
        let memsz = ph.p_memsz;
        let filesz = ph.p_filesz;
        let offset = ph.p_offset;
        let flags = ph.p_flags;
        let start_va = VirtAddr::from(vaddr);
        let end_va = VirtAddr::from(vaddr + memsz);
        let mut map_perm = PTEFlags::U();
        if flags & 0x4 != 0 {
            map_perm = map_perm.union(PTEFlags::R());
        }
        if flags & 0x2 != 0 {
            map_perm = map_perm.union(PTEFlags::W());
        }
        if flags & 0x1 != 0 {
            map_perm = map_perm.union(PTEFlags::X());
        }
        let data = &elf_data[offset as usize..(offset + filesz) as usize];
        let area = MapArea::new(start_va, end_va, MapType::Framed, map_perm);
        proof {
            assert(data@.len() == filesz);
            assert(area.vpn_range.len() == seg_pages(ph));
            assert forall|k: int|
                0 <= k < data@.len() implies area.vpn_range.start.0 <= (#[trigger] (area.start_va.0 + k)) / 4096 < area.vpn_range.end.0 by {
                assert(vaddr / 4096 <= (vaddr + k) / 4096);
                assert((vaddr + k) / 4096 < (vaddr + memsz + 4095) / 4096);
            }
        }
        let ghost old_areas = self.areas@;
        proof {
            lemma_map_budget_le(true, area.vpn_range.start.0, area.vpn_range.len() as int);
        }
        self.push(mem, allocator, area, Some(data));
        proof {
            assert(self.areas@ =~= old_areas.push(self.areas@.last()));
            if slots_follow_areas(&m0, root, old_areas) {
                lemma_slots_step(&m0, mem, root, old_areas, self.areas@, self.areas@.last().data_frames@);
            }
            if leaves_distinct(&m0, root) {
                let start = seg_start_vpn(ph);
                let len = seg_pages(ph);
                // Each byte lands on the page of its address, one of the segment's pages.
                assert forall|k: int| 0 <= k < filesz implies {
                    &&& 0 <= #[trigger] ((vaddr + k) as u64 / 4096) - start < len
                    &&& (((vaddr + k) as u64 / 4096) as int) == start + (((vaddr + k) as u64 / 4096) - start)
                } by {
                    assert(area.vpn_range.start.0 <= (area.start_va.0 + k) / 4096 < area.vpn_range.end.0);
                }
                // No two bytes land on one address.
                assert forall|k1: int, k2: int|
                    0 <= k1 < filesz && 0 <= k2 < filesz && k1 != k2 implies #[trigger] copy_target(mem, root, vaddr, k1)
                        != #[trigger] copy_target(mem, root, vaddr, k2) by {
                    let va1 = (vaddr + k1) as u64;
                    let va2 = (vaddr + k2) as u64;
                    assert(copy_mapped(mem, root, vaddr, k1) && copy_mapped(mem, root, vaddr, k2));
                    law_translate_keeps_offset(mem, root, va1);
                    law_translate_keeps_offset(mem, root, va2);
                    if va1 / 4096 != va2 / 4096 {
                        let j1 = (va1 / 4096) - start;
                        let j2 = (va2 / 4096) - start;
                        assert(0 <= j1 < len && 0 <= j2 < len);
                        if j1 < j2 {
                            lemma_distinct_slots(start as u64, j1 as u64, j2 as u64);
                        } else {
                            lemma_distinct_slots(start as u64, j2 as u64, j1 as u64);
                        }
                        assert(walk(mem, root, va1 / 4096) is Some && walk(mem, root, va2 / 4096) is Some);
                    }
                }
                assert forall|k: int| 0 <= k < ph.p_filesz implies #[trigger] user_byte(mem, root, (ph.p_vaddr + k) as u64) == Some(
                    elf_data@[ph.p_offset + k],
                ) by {
                    law_copied_byte_injective(mem, root, vaddr, data@, data@.len() as int, k);
                    assert(copy_mapped(mem, root, vaddr, k));
                    assert(mem.byte(copy_target(mem, root, vaddr, k)) == data@[k]);
                }
                assert forall|va: u64|
                    walk(&m0, root, va / 4096) is Some && (forall|kk: int|
                        0 <= kk < ph.p_filesz ==> !#[trigger] same_spot(va, (ph.p_vaddr + kk) as u64)) implies #[trigger] user_byte(
                        mem,
                        root,
                        va,
                    ) == user_byte(&m0, root, va) by {
                    let page = va / 4096;
                    assert(walk(mem, root, page) == walk(&m0, root, page));
                    law_translate_keeps_offset(&m0, root, va);
                    let pa = (translate_va_spec(&m0, root, va)->0).0;
                    assert(translate_va_spec(mem, root, va) == translate_va_spec(&m0, root, va));
                    let p = pte_ppn(walk(&m0, root, page)->0);
                    assert(pa / 4096 == p);
                    assert(!in_tree(&m0, root, p) && !a0.is_free(p));
                    if is_copy_target(mem, root, vaddr, filesz as int, pa) {
                        let k = choose|k: int| 0 <= k < filesz && #[trigger] copy_target(mem, root, vaddr, k) == pa;
                        let vb = (vaddr + k) as u64;
                        assert(copy_mapped(mem, root, vaddr, k));
                        law_translate_keeps_offset(mem, root, vb);
                        if vpn_sv39(vb / 4096) != vpn_sv39(page) {
                            assert(walk(mem, root, vb / 4096) is Some);
                            assert(walk(mem, root, page) is Some);
                            assert(pte_ppn(walk(mem, root, vb / 4096)->0) != pte_ppn(walk(mem, root, page)->0));
                        }
                        assert(same_spot(va, (ph.p_vaddr + k) as u64));
                    }
                    assert(mem.byte(pa) == m0.byte(pa));
                }
                assert forall|v: u64|
                    #[trigger] walk(&m0, root, v) is Some && seg_outside(ph, v) implies mem.frame(pte_ppn(walk(&m0, root, v)->0)) == m0.frame(
                        pte_ppn(walk(&m0, root, v)->0),
                    ) by {
                    let p = pte_ppn(walk(&m0, root, v)->0);
                    assert(!in_tree(&m0, root, p) && !a0.is_free(p));
                    assert forall|k: int| 0 <= k < data@.len() implies #[trigger] copy_target(mem, root, vaddr, k) / 4096 != p by {
                        let va = (vaddr + k) as u64;
                        assert(copy_mapped(mem, root, vaddr, k));
                        law_translate_keeps_offset(mem, root, va);
                        let j = (va / 4096) - start;
                        assert(0 <= j < len);
                        assert(vpn_sv39(v) != vpn_sv39((start + j) as u64));
                        assert(walk(mem, root, v) == walk(&m0, root, v));
                    }
                }
            }
        }
    }

    /// Builds the user address space of an ELF image: the trampoline (the frame that
    /// `kernel_space` maps at `TRAMPOLINE`), each segment to load with its bytes from the
    /// file, a user stack right above the segments, and a trap-context page at
    /// `TRAP_CONTEXT_USER`. Returns the space, the top of the user stack and the entry point.
    /// A new address space holding only the trampoline: the frame that `kernel_space` maps
    /// at `TRAMPOLINE`, mapped there readable and executable.
    pub(crate) fn new_with_trampoline(kernel_space: &MemorySet, mem: &mut PhysMem, allocator: &mut FrameAllocator) -> (r: MemorySet)
        requires
            old(allocator)@.wf(),
            old(allocator)@.end <= 0x1000_0000_0000,
            forall|p: u64| #[trigger] old(allocator)@.is_free(p) ==> p < 0x1000_0000_0000,
            old(allocator)@.aligned_count() >= 3,
            alloc_ok_for(old(mem), kernel_space.page_table.root_ppn.0, old(allocator)@),
            walk(old(mem), kernel_space.page_table.root_ppn.0, trampoline_vpn(TRAMPOLINE)) is Some,
            !old(allocator)@.is_free(pte_ppn(walk(old(mem), kernel_space.page_table.root_ppn.0, trampoline_vpn(TRAMPOLINE))->0)),
        ensures
            space_ok(final(mem), &r, final(allocator)@),
            leaves_ok(final(mem), r.page_table.root_ppn.0, final(allocator)@),
            alloc_shrinks(old(allocator)@, final(allocator)@),
            final(allocator)@.aligned_count() >= old(allocator)@.aligned_count() - 3,
            walk(final(mem), r.page_table.root_ppn.0, trampoline_vpn(TRAMPOLINE)) == Some(
                mapped_pte(pte_ppn(walk(old(mem), kernel_space.page_table.root_ppn.0, trampoline_vpn(TRAMPOLINE))->0), FLAG_R | FLAG_X),
            ),
            r.areas@.len() == 1,
            r.areas@[0].vpn_range.start.0 == TRAMPOLINE / 4096,
            r.areas@[0].vpn_range.end.0 == TRAMPOLINE / 4096 + 1,
            r.areas@[0].map_type == MapType::Framed,
            leaves_distinct(final(mem), r.page_table.root_ppn.0),
            pte_ppn(walk(final(mem), r.page_table.root_ppn.0, trampoline_vpn(TRAMPOLINE))->0) == pte_ppn(
                walk(old(mem), kernel_space.page_table.root_ppn.0, trampoline_vpn(TRAMPOLINE))->0,
            ),
            forall|p: u64| !old(allocator)@.is_free(p) ==> #[trigger] final(mem).frame(p) == old(mem).frame(p),
            forall|p: u64| #[trigger] in_tree(final(mem), r.page_table.root_ppn.0, p) ==> old(allocator)@.is_free(p),
            forall|v: u64|
                #[trigger] walk(final(mem), r.page_table.root_ppn.0, v) is Some ==> vpn_sv39(v) == vpn_sv39(trampoline_vpn(TRAMPOLINE)),
            areas_mapped(final(mem), r.page_table.root_ppn.0, r.areas@, 0),
    {
        let ghost kroot = kernel_space.page_table.root_ppn.0;
        let ghost tv = trampoline_vpn(TRAMPOLINE);
        let ghost m_in = *mem;
        let ghost a_in = allocator@;
        let ghost tf = pte_ppn(walk(&m_in, kroot, tv)->0);
        proof {
            lemma_alloc_free_set(a_in);
            assert(a_in.can_alloc());
        }
        let mut memory_set = Self::new_bare(mem, allocator);
        let ghost root = memory_set.page_table.root_ppn.0;
        proof {
            assert forall|p: u64| #[trigger] in_tree(&m_in, kroot, p) implies mem.frame(p) == m_in.frame(p) by {
                assert(!a_in.is_free(p));
            }
            lemma_agree_on_tree(&m_in, mem, kroot);
            assert(walk(mem, kroot, tv) == walk(&m_in, kroot, tv));
            assert(tf != root);
            assert(alloc_shrinks(a_in, allocator@));
        }
        let ghost m_b = *mem;
        memory_set.map_trampoline_global(kernel_space, mem, allocator);
        proof {
            assert(walk(mem, root, tv) == walk_after_map(&m_b, root, tv, tf, FLAG_R | FLAG_X, tv));
            assert forall|v: u64| #[trigger] walk(mem, root, v) is Some implies vpn_sv39(v) == vpn_sv39(tv) by {
                assert(walk(mem, root, v) == walk_after_map(&m_b, root, tv, tf, FLAG_R | FLAG_X, v));
                assert(walk(&m_b, root, v) is None);
            }
            let kb = walk(&m_in, kroot, tv)->0.bits;
            crate::pte::lemma_pte_ppn_bound(kb);
            law_pte_roundtrip(tf, (FLAG_R | FLAG_X) | crate::pte::FLAG_V);
            assert forall|p: u64| !a_in.is_free(p) implies #[trigger] mem.frame(p) == m_in.frame(p) by {
                assert(p != root);
                assert(m_b.frame(p) == m_in.frame(p));
                assert(!in_tree(&m_b, root, p));
            }
            crate::address::lemma_high_pages();
            assert(vpn_sv39((TRAMPOLINE / 4096 + 0) as u64) == vpn_sv39(tv));
            law_walk_uses_sv39_bits(mem, root, (TRAMPOLINE / 4096 + 0) as u64, tv);
            assert(walk(mem, root, (memory_set.areas@[0].vpn_range.start.0 + 0) as u64) is Some);
            assert(areas_mapped(mem, root, memory_set.areas@, 0));
        }
        memory_set
    }

    /// Maps a user stack of `USER_STACK_SIZE` bytes from `stack_bottom` up, and the trap-context
    /// page at `TRAP_CONTEXT_USER` backed by a newly allocated frame. Returns the top of the
    /// stack.
    #[verifier::rlimit(100)]
    #[verifier::spinoff_prover]
    fn push_stack_and_trap_context(&mut self, mem: &mut PhysMem, allocator: &mut FrameAllocator, stack_bottom: u64) -> (sp: u64)
        requires
            space_ok(old(mem), old(self), old(allocator)@),
            stack_bottom % 4096 == 0,
            stack_bottom + USER_STACK_SIZE + 4096 <= u64::MAX,
            old(allocator)@.aligned_count() >= 16,
        ensures
            sp == stack_bottom + USER_STACK_SIZE,
            final(self).page_table.root_ppn == old(self).page_table.root_ppn,
            space_ok(final(mem), final(self), final(allocator)@),
            alloc_shrinks(old(allocator)@, final(allocator)@),
            forall|v: u64|
                #[trigger] walk(old(mem), old(self).page_table.root_ppn.0, v) is Some ==> walk(
                    final(mem),
                    final(self).page_table.root_ppn.0,
                    v,
                ) == walk(old(mem), old(self).page_table.root_ppn.0, v),
            forall|k: int|
                0 <= k < USER_STACK_SIZE / 4096 ==> #[trigger] walk(final(mem), final(self).page_table.root_ppn.0, (stack_bottom / 4096 + k) as u64)
                    is Some,
            walk(final(mem), final(self).page_table.root_ppn.0, TRAP_CONTEXT_USER / 4096) is Some,
            old(self).areas@.is_prefix_of(final(self).areas@),
            final(self).areas@.len() == old(self).areas@.len() + 2,
            forall|p: u64|
                !in_tree(old(mem), old(self).page_table.root_ppn.0, p) && !old(allocator)@.is_free(p) ==> #[trigger] final(mem).frame(p)
                    == old(mem).frame(p),
            areas_mapped(final(mem), final(self).page_table.root_ppn.0, final(self).areas@, old(self).areas@.len() as int),
            final(allocator)@.aligned_count() >= old(allocator)@.aligned_count() - 16,
            final(self).areas@.last().vpn_range.start.0 == TRAP_CONTEXT_USER / 4096,
            final(self).areas@.last().vpn_range.end.0 == TRAP_CONTEXT_USER / 4096 + 1,
            leaves_ok(old(mem), old(self).page_table.root_ppn.0, old(allocator)@) ==> leaves_ok(
                final(mem),
                final(self).page_table.root_ppn.0,
                final(allocator)@,
            ),
            stack_area_ok(final(self).areas@[final(self).areas@.len() - 2], stack_bottom),
            trap_area_ok(final(self).areas@.last()),
            forall|k: int|
                0 <= k < USER_STACK_SIZE / 4096 && walk(old(mem), old(self).page_table.root_ppn.0, (stack_bottom / 4096 + k) as u64) is None
                    && vpn_sv39((stack_bottom / 4096 + k) as u64) != vpn_sv39(TRAP_CONTEXT_USER / 4096) ==> #[trigger] walk(
                    final(mem),
                    final(self).page_table.root_ppn.0,
                    (stack_bottom / 4096 + k) as u64,
                ) == Some(mapped_pte(final(self).areas@[final(self).areas@.len() - 2].data_frames@[k].0, FLAG_R | FLAG_W | FLAG_U)),
            walk(old(mem), old(self).page_table.root_ppn.0, TRAP_CONTEXT_USER / 4096) is None && (forall|k: int|
                0 <= k < USER_STACK_SIZE / 4096 ==> vpn_sv39(#[trigger] ((stack_bottom / 4096 + k) as u64)) != vpn_sv39(TRAP_CONTEXT_USER / 4096))
                ==> walk(final(mem), final(self).page_table.root_ppn.0, TRAP_CONTEXT_USER / 4096) == Some(
                mapped_pte(final(self).areas@.last().data_frames@[0].0, FLAG_R | FLAG_W),
            ),
            (leaves_ok(old(mem), old(self).page_table.root_ppn.0, old(allocator)@) && leaves_distinct(old(mem), old(self).page_table.root_ppn.0))
                ==> leaves_distinct(final(mem), final(self).page_table.root_ppn.0),
    {
        let ghost root = self.page_table.root_ppn.0;
        let ghost m0 = *mem;
        let ghost a0 = allocator@;
        let ghost areas0 = self.areas@;
        let user_stack_top: u64 = stack_bottom + USER_STACK_SIZE;
        let stack_perm = PTEFlags::R().union(PTEFlags::W()).union(PTEFlags::U());
        let stack_area = MapArea::new(VirtAddr::from(stack_bottom), VirtAddr::from(user_stack_top), MapType::Framed, stack_perm);
        proof {
            assert(stack_area.vpn_range.len() == 4);
            lemma_map_budget_le(true, stack_area.vpn_range.start.0, 4);
        }
        self.push(mem, allocator, stack_area, None);
        let ghost m1 = *mem;
        let ghost a1 = allocator@;
        let ghost areas1 = self.areas@;
        proof {
            lemma_alloc_free_set(a1);
        }
        let trap_cx_frame = crate::frame::frame_alloc(allocator).unwrap();
        proof {
            lemma_alloc_ok_step(&m1, &m1, root, a1, allocator@);
        }
        let ghost a2 = allocator@;
        proof {
            if leaves_ok(&m0, root, a0) {
                assert forall|v: u64| #[trigger] walk(&m1, root, v) is Some implies !in_tree(&m1, root, pte_ppn(walk(&m1, root, v)->0))
                    && !a2.is_free(pte_ppn(walk(&m1, root, v)->0)) by {
                    assert(!a1.is_free(pte_ppn(walk(&m1, root, v)->0)));
                }
            }
        }
        let trap_perm = PTEFlags::R().union(PTEFlags::W());
        let trap_area = MapArea::new_one_page(VirtAddr::from(TRAP_CONTEXT_USER), trap_cx_frame, MapType::Fixed(trap_cx_frame), trap_perm);
        proof {
            lemma_map_budget_le(false, trap_area.vpn_range.start.0, 1);
        }
        self.push(mem, allocator, trap_area, None);
        proof {
            let f = trap_cx_frame.0;
            let tvpn = TRAP_CONTEXT_USER / 4096;
            assert(a1.is_free(f) && !a2.is_free(f));
            assert(!in_tree(&m1, root, f) && f < 0x1000_0000_0000);
            assert(leaves_ok(&m0, root, a0) ==> leaves_ok(mem, root, allocator@)) by {
                if leaves_ok(&m0, root, a0) {
                assert forall|v: u64| #[trigger] walk(mem, root, v) is Some implies !in_tree(mem, root, pte_ppn(walk(mem, root, v)->0))
                    && !allocator@.is_free(pte_ppn(walk(mem, root, v)->0)) by {
                    if walk(&m1, root, v) is Some {
                        assert(walk(mem, root, v) == walk(&m1, root, v));
                        assert(!a2.is_free(pte_ppn(walk(&m1, root, v)->0)));
                    } else {
                        assert(!outside_slots(tvpn, 1, v));
                        assert(vpn_sv39(v) == vpn_sv39((tvpn + 0) as u64));
                        law_walk_uses_sv39_bits(&m1, root, v, (tvpn + 0) as u64);
                        law_walk_uses_sv39_bits(mem, root, v, (tvpn + 0) as u64);
                        assert(walk(mem, root, (tvpn + 0) as u64) == mapped_walk(&m1, root, (tvpn + 0) as u64, f, trap_perm@));
                        law_pte_roundtrip(f, trap_perm@ | crate::pte::FLAG_V);
                        assert(pte_ppn(walk(mem, root, v)->0) == f);
                    }
                }
                }
            }
            assert(trap_area.vpn_range.start.0 + 0 == TRAP_CONTEXT_USER / 4096);
            assert(walk(mem, root, (trap_area.vpn_range.start.0 + 0) as u64) is Some);
            assert forall|p: u64| !in_tree(&m0, root, p) && !a0.is_free(p) implies #[trigger] mem.frame(p) == m0.frame(p) by {
                assert(m1.frame(p) == m0.frame(p));
                assert(!in_tree(&m1, root, p));
                assert(!a1.is_free(p));
            }
            assert(areas0.is_prefix_of(self.areas@)) by {
                assert forall|j: int| 0 <= j < areas0.len() implies self.areas@[j] == areas0[j] by {
                    assert(areas1[j] == areas0[j]);
                }
            }
            let n0 = areas0.len() as int;
            assert(self.areas@[n0] == areas1[n0]);
            assert forall|k: int| 0 <= k < self.areas@[n0].vpn_range.len() implies #[trigger] walk(
                mem,
                root,
                (self.areas@[n0].vpn_range.start.0 + k) as u64,
            ) is Some by {
                assert(walk(&m1, root, (stack_area.vpn_range.start.0 + k) as u64) is Some);
            }
            assert(walk(mem, root, (self.areas@[n0 + 1].vpn_range.start.0 + 0) as u64) is Some);
            assert(areas_mapped(mem, root, self.areas@, n0));
            let sa = areas1[n0];
            assert(self.areas@[self.areas@.len() - 2] == sa);
            assert(stack_area_ok(sa, stack_bottom));
            assert(trap_area_ok(self.areas@.last()));
            assert(trap_area.vpn_range.start.0 == tvpn);
            lemma_stack_and_trap_leaves(&m0, &m1, mem, root, a0, a1, stack_area.vpn_range.start.0, sa.data_frames@, f, stack_perm@, trap_perm@);
        }
        user_stack_top
    }

    /// Builds the user address space of an ELF image: the trampoline (the frame that
    /// `kernel_space` maps at `TRAMPOLINE`), each segment to load with its bytes from the
    /// file, a user stack right above the segments, and a trap-context page at
    /// `TRAP_CONTEXT_USER`. Returns the space, the top of the user stack and the entry point.
    #[verifier::rlimit(40)]
    pub fn from_elf(elf_data: &[u8], kernel_space: &MemorySet, mem: &mut PhysMem, allocator: &mut FrameAllocator) -> (r: (
        MemorySet,
        u64,
        u64,
    ))
        requires
            elf_loadable(elf_data@),
            old(allocator)@.wf(),
            old(allocator)@.end <= 0x1000_0000_0000,
            forall|p: u64| #[trigger] old(allocator)@.is_free(p) ==> p < 0x1000_0000_0000,
            old(allocator)@.aligned_count() >= elf_frames_needed(elf_data@),
            alloc_ok_for(old(mem), kernel_space.page_table.root_ppn.0, old(allocator)@),
            walk(old(mem), kernel_space.page_table.root_ppn.0, trampoline_vpn(TRAMPOLINE)) is Some,
            !old(allocator)@.is_free(pte_ppn(walk(old(mem), kernel_space.page_table.root_ppn.0, trampoline_vpn(TRAMPOLINE))->0)),
        ensures
            ({
                let (ms, sp, entry) = r;
                let s = elf_data@;
                let phs = elf_segments(s);
                let root = ms.page_table.root_ppn.0;
                let tf = pte_ppn(walk(old(mem), kernel_space.page_table.root_ppn.0, trampoline_vpn(TRAMPOLINE))->0);
                &&& entry == elf_header(s).pt2.e_entry
                &&& sp == user_stack_bottom(s) + USER_STACK_SIZE
                &&& space_ok(final(mem), &ms, final(allocator)@)
                &&& alloc_shrinks(old(allocator)@, final(allocator)@)
                &&& walk(final(mem), root, trampoline_vpn(TRAMPOLINE)) == Some(mapped_pte(tf, FLAG_R | FLAG_X))
                &&& segments_mapped(final(mem), root, ms.areas@, 1, phs, phs.len() as int)
                &&& forall|k: int|
                    0 <= k < USER_STACK_SIZE / 4096 ==> #[trigger] walk(final(mem), root, (user_stack_bottom(s) / 4096 + k) as u64)
                        is Some
                &&& walk(final(mem), root, TRAP_CONTEXT_USER / 4096) is Some
                &&& ms.areas@.len() == load_count(phs, phs.len() as int) + 3
                &&& bytes_loaded(final(mem), root, s, phs, phs.len() as int)
                &&& user_space_ok(final(mem), &ms, final(allocator)@, tf)
                &&& final(allocator)@.aligned_count() >= old(allocator)@.aligned_count() - elf_frames_needed(s)
                &&& ms.areas@.last().vpn_range.start.0 == TRAP_CONTEXT_USER / 4096
                &&& ms.areas@.last().vpn_range.end.0 == TRAP_CONTEXT_USER / 4096 + 1
                &&& covers_trap_page(ms.areas@)
                &&& program_loaded(final(mem), &ms, s)
                &&& leaves_distinct(final(mem), root)
            }),
    {
        let ghost s = elf_data@;
        let ghost segs = elf_segments(s);
        let ghost total = segs.len() as int;
        let ghost tv = trampoline_vpn(TRAMPOLINE);
        proof {
            lemma_load_prefix(segs, total, total);
        }
        let mut memory_set = Self::new_with_trampoline(kernel_space, mem, allocator);
        let ghost root = memory_set.page_table.root_ppn.0;
        let elf = ElfFile::new(elf_data).unwrap();
        let entry_point = elf.header.pt2.e_entry;
        let phs = elf.program_iter();
        let ghost m1 = *mem;
        let ghost areas1 = memory_set.areas@;
        let ghost a1 = allocator@;
        proof {
            lemma_slots_after_trampoline(&m1, root, areas1);
        }
        let max_end_vpn = memory_set.push_segments(mem, allocator, elf_data, &phs);
        let ghost m2 = *mem;
        let ghost areas2 = memory_set.areas@;
        proof {
            assert(walk(&m1, root, tv) is Some);
            assert(max_end_vpn * 4096 == user_stack_bottom(s));
        }
        proof {
            lemma_areas_mapped_keep(&m1, &m2, root, areas1, areas2, 0);
        }
        let user_stack_top = memory_set.push_stack_and_trap_context(mem, allocator, max_end_vpn * PAGE_SIZE);
        proof {
            lemma_areas_mapped_keep(&m2, mem, root, areas2, memory_set.areas@, 0);
            let kb = walk(old(mem), kernel_space.page_table.root_ppn.0, tv)->0.bits;
            crate::pte::lemma_pte_ppn_bound(kb);
            law_pte_roundtrip(
                pte_ppn(walk(old(mem), kernel_space.page_table.root_ppn.0, tv)->0),
                (FLAG_R | FLAG_X) | crate::pte::FLAG_V,
            );
            assert(walk(&m2, root, tv) is Some);
            lemma_segments_mapped_keep(&m2, mem, root, areas2, memory_set.areas@, 1, segs, total);
            let last = memory_set.areas@.len() - 1;
            assert(memory_set.areas@[last] == memory_set.areas@.last());
            assert(covers_trap_page(memory_set.areas@));
            assert forall|i: int, k: int|
                0 <= i < total && is_load(segs[i]) && 0 <= k < seg_pages(segs[i]) implies #[trigger] mem.frame(
                pte_ppn(walk(&m2, root, (seg_start_vpn(segs[i]) + k) as u64)->0),
            ) == m2.frame(pte_ppn(walk(&m2, root, (seg_start_vpn(segs[i]) + k) as u64)->0)) by {
                assert(walk(&m2, root, (seg_start_vpn(segs[i]) + k) as u64) is Some);
            }
            lemma_bytes_loaded_keep(&m2, mem, root, s, segs, total);
            assert(max_end_vpn * 4096 / 4096 == max_end_vpn);
            lemma_area_perms_keep(&m2, mem, root, areas2, memory_set.areas@, areas2.len() as int);
            if stack_slots_free(s) {
                lemma_stack_slots_unmapped(&m1, &m2, root, s);
            }
        }
        (memory_set, user_stack_top, entry_point)
    }
}

} // verus!
