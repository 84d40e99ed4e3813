//! Copying a user address space (for `fork`).
use vstd::prelude::*;

use crate::address::{vpn_sv39, VirtPageNum};
use crate::config::TRAMPOLINE;
use crate::frame::{FrameAllocState, FrameAllocator};
use crate::map_area::{area_ppn, lemma_map_budget_le, mapped_walk, outside_slots, MapArea, MapType};
use crate::memory_set::{leaves_distinct, leaves_ok, space_ok, trampoline_vpn, MemorySet};
use crate::page_table::{
    alloc_ok_for, alloc_shrinks, in_tree, law_walk_uses_sv39_bits, lemma_agree_on_tree, mapped_pte, tree_wf, walk,
};
use crate::phys_mem::PhysMem;
use crate::pte::{law_pte_roundtrip, pte_bits_flags, pte_ppn, FLAG_R, FLAG_V, FLAG_X};
use crate::vpn_range::vpn_seq;

verus! {

/// A user address space whose trampoline frame is `tf`: its page table is a tree, its pages
/// map to frames of their own, the trampoline page maps to `tf`, and its areas are framed or
/// fixed, each with every page mapped.
pub open spec fn user_space_ok(mem: &PhysMem, ms: &MemorySet, a: FrameAllocState, tf: u64) -> bool {
    let root = ms.page_table.root_ppn.0;
    &&& space_ok(mem, ms, a)
    &&& leaves_ok(mem, root, a)
    &&& walk(mem, root, trampoline_vpn(TRAMPOLINE)) is Some
    &&& pte_ppn(walk(mem, root, trampoline_vpn(TRAMPOLINE))->0) == tf
    &&& areas_mapped(mem, root, ms.areas@, 0)
}

/// The areas from index `from` on are framed or fixed, span at most 2^27 pages, and have
/// every page mapped.
pub open spec fn areas_mapped(mem: &PhysMem, root: u64, areas: Seq<MapArea>, from: int) -> bool {
    &&& forall|i: int|
        from <= i < areas.len() ==> (#[trigger] areas[i]).map_type != MapType::Identical && areas[i].vpn_range.len() <= 0x800_0000
    &&& forall|i: int, k: int|
        from <= i < areas.len() && 0 <= k < areas[i].vpn_range.len() ==> #[trigger] walk(
            mem,
            root,
            (areas[i].vpn_range.start.0 + k) as u64,
        ) is Some
}

/// Mapped areas stay mapped while every mapped page stays as it is and the areas only grow.
pub proof fn lemma_areas_mapped_keep(m0: &PhysMem, m1: &PhysMem, root: u64, areas0: Seq<MapArea>, areas1: Seq<MapArea>, from: int)
    requires
        0 <= from,
        areas_mapped(m0, root, areas0, from),
        forall|v: u64| #[trigger] walk(m0, root, v) is Some ==> walk(m1, root, v) == walk(m0, root, v),
        areas0.is_prefix_of(areas1),
        areas_mapped(m1, root, areas1, areas0.len() as int),
    ensures
        areas_mapped(m1, root, areas1, from),
{
    assert forall|i: int| from <= i < areas1.len() implies (#[trigger] areas1[i]).map_type != MapType::Identical
        && areas1[i].vpn_range.len() <= 0x800_0000 by {
        if i < areas0.len() {
            assert(areas1[i] == areas0[i]);
        }
    }
    assert forall|i: int, k: int|
        from <= i < areas1.len() && 0 <= k < areas1[i].vpn_range.len() implies #[trigger] walk(
        m1,
        root,
        (areas1[i].vpn_range.start.0 + k) as u64,
    ) is Some by {
        if i < areas0.len() {
            assert(areas1[i] == areas0[i]);
            assert(walk(m0, root, (areas0[i].vpn_range.start.0 + k) as u64) is Some);
        }
    }
}

/// The pages of the first `n` areas.
pub open spec fn area_pages(areas: Seq<MapArea>, n: int) -> int
    decreases n,
{
    if n <= 0 {
        0
    } else {
        area_pages(areas, n - 1) + areas[n - 1].vpn_range.len()
    }
}

/// Page `v` under `child` in `m` holds what page `v` under `parent` held in `m0`.
pub open spec fn page_copied(m: &PhysMem, child: u64, m0: &PhysMem, parent: u64, v: u64) -> bool {
    m.frame(pte_ppn(walk(m, child, v)->0)) == m0.frame(pte_ppn(walk(m0, parent, v)->0))
}

/// Page `v` has a slot of its own when mapped after the trampoline and the first `j` areas:
/// neither the trampoline nor a page of those areas shares its slot.
pub open spec fn first_in_slot(areas: Seq<MapArea>, j: int, v: u64) -> bool {
    &&& vpn_sv39(v) != vpn_sv39(trampoline_vpn(TRAMPOLINE))
    &&& forall|i: int, k: int|
        0 <= i < j && 0 <= k < areas[i].vpn_range.len() ==> vpn_sv39(v) != #[trigger] vpn_sv39(
            (areas[i].vpn_range.start.0 + k) as u64,
        )
}

/// Each page of the first `n` areas that has a slot of its own is mapped with its area's
/// permissions (and V).
pub open spec fn leaves_have_area_perms(m: &PhysMem, root: u64, areas: Seq<MapArea>, n: int) -> bool {
    forall|j: int, k: int|
        0 <= j < n && 0 <= k < areas[j].vpn_range.len() && first_in_slot(areas, j, (areas[j].vpn_range.start.0 + k) as u64)
            ==> {
            &&& #[trigger] walk(m, root, (areas[j].vpn_range.start.0 + k) as u64) is Some
            &&& pte_bits_flags(walk(m, root, (areas[j].vpn_range.start.0 + k) as u64)->0.bits) == areas[j].map_perm@ | FLAG_V
        }
}

/// Area `c` of a copied address space stands for area `p` of the parent space: same pages,
/// start and permissions, backed by frames of its own.
pub open spec fn area_copy_of(c: MapArea, p: MapArea) -> bool {
    &&& c.vpn_range == p.vpn_range
    &&& c.start_va == p.start_va
    &&& c.map_perm == p.map_perm
    &&& c.map_type == MapType::Framed
}

/// Every page of the first `i` areas of `parent` is mapped under `child` and holds what it
/// held under `parent` in `m0`.
pub open spec fn areas_copied(m: &PhysMem, child: u64, m0: &PhysMem, parent: &MemorySet, i: int) -> bool {
    forall|j: int, k: int|
        #![trigger walk(m, child, (parent.areas@[j].vpn_range.start.0 + k) as u64)]
        #![trigger page_copied(m, child, m0, parent.page_table.root_ppn.0, (parent.areas@[j].vpn_range.start.0 + k) as u64)]
        0 <= j < i && 0 <= k < parent.areas@[j].vpn_range.len() ==> {
            &&& walk(m, child, (parent.areas@[j].vpn_range.start.0 + k) as u64) is Some
            &&& page_copied(m, child, m0, parent.page_table.root_ppn.0, (parent.areas@[j].vpn_range.start.0 + k) as u64)
        }
}

/// After mapping a framed area, every mapped page maps to a frame with property `ok` if every
/// page did before and every frame handed to the area has it.
proof fn lemma_leaves_keep_property(
    m0: &PhysMem,
    m1: &PhysMem,
    root: u64,
    start: u64,
    n: nat,
    frames: Seq<crate::address::PhysPageNum>,
    base: int,
    perm: u8,
    ok: spec_fn(u64) -> bool,
)
    requires
        0 <= base,
        frames.len() == base + n,
        forall|i: int| base <= i < frames.len() ==> ok(#[trigger] frames[i].0) && frames[i].0 < 0x1000_0000_0000,
        forall|v: u64| #[trigger] walk(m0, root, v) is Some ==> ok(pte_ppn(walk(m0, root, v)->0)),
        forall|k: int|
            0 <= k < n ==> #[trigger] walk(m1, root, (start + k) as u64) == mapped_walk(
                m0,
                root,
                (start + k) as u64,
                area_ppn(MapType::Framed, frames, base, start, k),
                perm,
            ),
        forall|v: u64| outside_slots(start, n as int, v) ==> #[trigger] walk(m1, root, v) == walk(m0, root, v),
    ensures
        forall|v: u64| #[trigger] walk(m1, root, v) is Some ==> ok(pte_ppn(walk(m1, root, v)->0)),
{
    assert forall|v: u64| #[trigger] walk(m1, root, v) is Some implies ok(pte_ppn(walk(m1, root, v)->0)) by {
        if !outside_slots(start, n as int, v) {
            let k = choose|k: int| 0 <= k < n && !(vpn_sv39(v) != #[trigger] vpn_sv39((start + k) as u64));
            law_walk_uses_sv39_bits(m1, root, v, (start + k) as u64);
            law_walk_uses_sv39_bits(m0, root, v, (start + k) as u64);
            assert(walk(m1, root, (start + k) as u64) == mapped_walk(m0, root, (start + k) as u64, frames[base + k].0, perm));
            if walk(m0, root, v) is None {
                law_pte_roundtrip(frames[base + k].0, perm | crate::pte::FLAG_V);
            }
        }
    }
}

proof fn lemma_area_pages_prefix(areas: Seq<MapArea>, i: int, n: int)
    requires
        0 <= i <= n,
    ensures
        0 <= area_pages(areas, i) <= area_pages(areas, n),
    decreases n,
{
    if i < n {
        lemma_area_pages_prefix(areas, i, n - 1);
    } else if n > 0 {
        lemma_area_pages_prefix(areas, n - 1, n - 1);
    }
}


/// Pushing the copy of area `i` (framed, with permissions `perm`) keeps every earlier page
/// that has a slot of its own as it was, maps each of its own pages that has one with `perm`,
/// and maps nothing outside the slots of the trampoline and the first `i + 1` areas.
pub(crate) proof fn lemma_copy_slots_step(m0: &PhysMem, m1: &PhysMem, root: u64, areas: Seq<MapArea>, i: int, perm: u8, frames: Seq<crate::address::PhysPageNum>)
    requires
        0 <= i < areas.len(),
        forall|v: u64| #[trigger] walk(m0, root, v) is Some ==> !first_in_slot(areas, i, v),
        leaves_have_area_perms(m0, root, areas, i),
        perm == areas[i].map_perm@,
        forall|k: int|
            0 <= k < areas[i].vpn_range.len() ==> #[trigger] walk(m1, root, (areas[i].vpn_range.start.0 + k) as u64) == mapped_walk(
                m0,
                root,
                (areas[i].vpn_range.start.0 + k) as u64,
                area_ppn(MapType::Framed, frames, 0, areas[i].vpn_range.start.0, k),
                perm,
            ),
        forall|v: u64|
            outside_slots(areas[i].vpn_range.start.0, areas[i].vpn_range.len() as int, v) ==> #[trigger] walk(m1, root, v) == walk(
                m0,
                root,
                v,
            ),
        forall|v: u64| #[trigger] walk(m0, root, v) is Some ==> walk(m1, root, v) == walk(m0, root, v),
    ensures
        forall|v: u64| #[trigger] walk(m1, root, v) is Some ==> !first_in_slot(areas, i + 1, v),
        leaves_have_area_perms(m1, root, areas, i + 1),
{
    let start = areas[i].vpn_range.start.0;
    let len = areas[i].vpn_range.len() as int;
    assert forall|v: u64| #[trigger] walk(m1, root, v) is Some implies !first_in_slot(areas, i + 1, v) by {
        if outside_slots(start, len, v) {
            assert(walk(m0, root, v) is Some);
            assert(!first_in_slot(areas, i, v));
            if vpn_sv39(v) != vpn_sv39(trampoline_vpn(TRAMPOLINE)) {
                let (j, k) = choose|j: int, k: int|
                    0 <= j < i && 0 <= k < areas[j].vpn_range.len() && vpn_sv39(v) == #[trigger] vpn_sv39(
                        (areas[j].vpn_range.start.0 + k) as u64,
                    );
                assert(vpn_sv39(v) == vpn_sv39((areas[j].vpn_range.start.0 + k) as u64));
            }
        } else {
            let k = choose|k: int| 0 <= k < len && vpn_sv39(v) == #[trigger] vpn_sv39((start + k) as u64);
            assert(vpn_sv39(v) == vpn_sv39((areas[i].vpn_range.start.0 + k) as u64));
        }
    }
    assert forall|j: int, k: int|
        0 <= j < i + 1 && 0 <= k < areas[j].vpn_range.len() && first_in_slot(areas, j, (areas[j].vpn_range.start.0 + k) as u64)
            implies #[trigger] walk(m1, root, (areas[j].vpn_range.start.0 + k) as u64) is Some && pte_bits_flags(
        walk(m1, root, (areas[j].vpn_range.start.0 + k) as u64)->0.bits,
    ) == areas[j].map_perm@ | FLAG_V by {
        let v = (areas[j].vpn_range.start.0 + k) as u64;
        if j < i {
            assert(walk(m0, root, v) is Some);
        } else {
            assert(walk(m0, root, v) is None);
            law_pte_roundtrip(area_ppn(MapType::Framed, frames, 0, start, k), perm | FLAG_V);
        }
    }
}

impl MemorySet {
    /// A copy of the user address space `user_space` (as `fork` makes): the trampoline that
    /// `kernel_space` maps, then, for each area, an area over the same pages with frames of
    /// its own holding what the pages hold in `user_space`. The budget it asks of the allocator
    /// (three aligned frames per page, and three more) suffices; it is not the least need.
    pub fn from_existed_user(user_space: &MemorySet, kernel_space: &MemorySet, mem: &mut PhysMem, allocator: &mut FrameAllocator) -> (r: MemorySet)
        requires
            walk(old(mem), kernel_space.page_table.root_ppn.0, trampoline_vpn(TRAMPOLINE)) is Some,
            user_space_ok(
                old(mem),
                user_space,
                old(allocator)@,
                pte_ppn(walk(old(mem), kernel_space.page_table.root_ppn.0, trampoline_vpn(TRAMPOLINE))->0),
            ),
            alloc_ok_for(old(mem), kernel_space.page_table.root_ppn.0, old(allocator)@),
            old(allocator)@.aligned_count() >= 3 + 3 * area_pages(user_space.areas@, user_space.areas@.len() as int),
        ensures
            ({
                let tf = pte_ppn(walk(old(mem), kernel_space.page_table.root_ppn.0, trampoline_vpn(TRAMPOLINE))->0);
                let n = user_space.areas@.len();
                &&& user_space_ok(final(mem), &r, final(allocator)@, tf)
                &&& user_space_ok(final(mem), user_space, final(allocator)@, tf)
                &&& alloc_shrinks(old(allocator)@, final(allocator)@)
                &&& forall|p: u64| !old(allocator)@.is_free(p) ==> #[trigger] final(mem).frame(p) == old(mem).frame(p)
                &&& forall|v: u64|
                    #[trigger] walk(final(mem), user_space.page_table.root_ppn.0, v) == walk(old(mem), user_space.page_table.root_ppn.0, v)
                &&& r.areas@.len() == n + 1
                &&& forall|i: int| 0 <= i < n ==> area_copy_of(r.areas@[i + 1], #[trigger] user_space.areas@[i])
                &&& areas_copied(final(mem), r.page_table.root_ppn.0, old(mem), user_space, n as int)
                &&& leaves_distinct(final(mem), r.page_table.root_ppn.0)
                &&& leaves_have_area_perms(final(mem), r.page_table.root_ppn.0, user_space.areas@, n as int)
                &&& forall|v: u64|
                    #[trigger] walk(final(mem), r.page_table.root_ppn.0, v) is Some ==> pte_ppn(walk(final(mem), r.page_table.root_ppn.0, v)->0) == tf
                        || old(allocator)@.is_free(pte_ppn(walk(final(mem), r.page_table.root_ppn.0, v)->0))
                &&& final(allocator)@.aligned_count() >= old(allocator)@.aligned_count() - 3 - 3 * area_pages(user_space.areas@, n as int)
            }),
    {
        let ghost m_in = *mem;
        let ghost a_in = allocator@;
        let ghost kroot = kernel_space.page_table.root_ppn.0;
        let ghost tv = trampoline_vpn(TRAMPOLINE);
        let ghost tf = pte_ppn(walk(&m_in, kroot, tv)->0);
        let ghost proot = user_space.page_table.root_ppn.0;
        let ghost n = user_space.areas@.len() as int;
        proof {
            lemma_area_pages_prefix(user_space.areas@, n, n);
            assert(walk(&m_in, proot, tv) is Some);
            assert(!a_in.is_free(tf));
        }
        let mut memory_set = Self::new_with_trampoline(kernel_space, mem, allocator);
        let ghost croot = memory_set.page_table.root_ppn.0;
        proof {
            assert forall|p: u64| #[trigger] in_tree(&m_in, proot, p) implies mem.frame(p) == m_in.frame(p) by {
                assert(!a_in.is_free(p));
            }
            lemma_agree_on_tree(&m_in, mem, proot);
            assert forall|v: u64| #[trigger] walk(mem, croot, v) is Some implies pte_ppn(walk(mem, croot, v)->0) == tf || a_in.is_free(
                pte_ppn(walk(mem, croot, v)->0),
            ) by {
                law_walk_uses_sv39_bits(mem, croot, v, tv);
            }
        }
        let mut i: usize = 0;
        while i < user_space.areas.len()
            invariant
                croot == memory_set.page_table.root_ppn.0,
                proot == user_space.page_table.root_ppn.0,
                tv == trampoline_vpn(TRAMPOLINE),
                n == user_space.areas@.len(),
                user_space_ok(&m_in, user_space, a_in, tf),
                i <= n,
                space_ok(mem, &memory_set, allocator@),
                leaves_ok(mem, croot, allocator@),
                leaves_distinct(mem, croot),
                alloc_shrinks(a_in, allocator@),
                allocator@.aligned_count() >= 3 * (area_pages(user_space.areas@, n) - area_pages(user_space.areas@, i as int)),
                allocator@.aligned_count() >= a_in.aligned_count() - 3 - 3 * area_pages(user_space.areas@, i as int),
                area_pages(user_space.areas@, i as int) <= area_pages(user_space.areas@, n),
                walk(mem, croot, tv) is Some,
                pte_ppn(walk(mem, croot, tv)->0) == tf,
                forall|v: u64|
                    #[trigger] walk(mem, croot, v) is Some ==> pte_ppn(walk(mem, croot, v)->0) == tf || a_in.is_free(
                        pte_ppn(walk(mem, croot, v)->0),
                    ),
                forall|p: u64| #[trigger] in_tree(mem, croot, p) ==> a_in.is_free(p),
                forall|v: u64| #[trigger] walk(mem, proot, v) == walk(&m_in, proot, v),
                forall|p: u64| !a_in.is_free(p) ==> #[trigger] mem.frame(p) == m_in.frame(p),
                memory_set.areas@.len() == 1 + i,
                memory_set.areas@[0].vpn_range.start.0 == TRAMPOLINE / 4096,
                memory_set.areas@[0].vpn_range.end.0 == TRAMPOLINE / 4096 + 1,
                memory_set.areas@[0].map_type == MapType::Framed,
                forall|j: int| 0 <= j < i ==> area_copy_of(memory_set.areas@[j + 1], #[trigger] user_space.areas@[j]),
                areas_copied(mem, croot, &m_in, user_space, i as int),
                forall|v: u64| #[trigger] walk(mem, croot, v) is Some ==> !first_in_slot(user_space.areas@, i as int, v),
                leaves_have_area_perms(mem, croot, user_space.areas@, i as int),
            decreases n - i,
        {
            let area = &user_space.areas[i];
            let new_area = MapArea::from_another(area);
            let ghost m0 = *mem;
            let ghost a0 = allocator@;
            let ghost areas0 = memory_set.areas@;
            let ghost start = area.vpn_range.start.0;
            let ghost len = area.vpn_range.len();
            proof {
                lemma_area_pages_prefix(user_space.areas@, i + 1, n);
                assert(area.map_type != MapType::Identical);
                assert(new_area.map_type == MapType::Framed);
            }
            proof {
                lemma_map_budget_le(true, new_area.vpn_range.start.0, new_area.vpn_range.len() as int);
            }
            memory_set.push(mem, allocator, new_area, None);
            let ghost m1 = *mem;
            let ghost a1 = allocator@;
            proof {
                let frames = memory_set.areas@.last().data_frames@;
                lemma_leaves_keep_property(
                    &m0,
                    &m1,
                    croot,
                    start,
                    len,
                    frames,
                    0,
                    new_area.map_perm@,
                    |f: u64| f == tf || a_in.is_free(f),
                );
                assert forall|p: u64| #[trigger] in_tree(&m1, croot, p) implies a_in.is_free(p) by {
                    if !in_tree(&m0, croot, p) {
                        assert(a0.is_free(p));
                    }
                }
                assert forall|p: u64| !a_in.is_free(p) implies #[trigger] m1.frame(p) == m_in.frame(p) by {
                    assert(!in_tree(&m0, croot, p));
                    assert(!a0.is_free(p));
                    assert(m1.frame(p) == m0.frame(p));
                }
                assert forall|p: u64| #[trigger] in_tree(&m_in, proot, p) implies m1.frame(p) == m_in.frame(p) by {
                    assert(!a_in.is_free(p));
                }
                lemma_agree_on_tree(&m_in, &m1, proot);
                assert forall|j: int, k: int|
                    #![trigger walk(&m1, croot, (user_space.areas@[j].vpn_range.start.0 + k) as u64)]
                    #![trigger page_copied(&m1, croot, &m_in, proot, (user_space.areas@[j].vpn_range.start.0 + k) as u64)]
                    0 <= j < i && 0 <= k < user_space.areas@[j].vpn_range.len() implies walk(
                        &m1,
                        croot,
                        (user_space.areas@[j].vpn_range.start.0 + k) as u64,
                    ) is Some && page_copied(&m1, croot, &m_in, proot, (user_space.areas@[j].vpn_range.start.0 + k) as u64) by {
                    let v = (user_space.areas@[j].vpn_range.start.0 + k) as u64;
                    assert(page_copied(&m0, croot, &m_in, proot, v));
                    assert(walk(&m0, croot, v) is Some);
                    let f = pte_ppn(walk(&m0, croot, v)->0);
                    assert(!in_tree(&m0, croot, f) && !a0.is_free(f));
                    assert(m1.frame(f) == m0.frame(f));
                }
                assert forall|j: int| 0 <= j < i + 1 implies area_copy_of(memory_set.areas@[j + 1], #[trigger] user_space.areas@[j]) by {
                    if j < i {
                        assert(memory_set.areas@[j + 1] == areas0[j + 1]);
                    }
                }
                assert(memory_set.areas@[0] == areas0[0]);
                lemma_copy_slots_step(&m0, &m1, croot, user_space.areas@, i as int, new_area.map_perm@, memory_set.areas@.last().data_frames@);
            }
            let vpns = area.vpn_range.iter();
            proof {
                assert forall|j: int| 0 <= j < vpns@.len() implies walk(&m1, croot, (#[trigger] vpns@[j]).0) is Some && walk(
                    &m_in,
                    proot,
                    vpns@[j].0,
                ) is Some by {
                    assert(vpns@[j].0 == (start + j) as u64);
                    assert(walk(&m1, croot, (area.vpn_range.start.0 + j) as u64) is Some);
                    assert(walk(&m_in, proot, (user_space.areas@[i as int].vpn_range.start.0 + j) as u64) is Some);
                }
            }
            memory_set.copy_pages_from(user_space, mem, &vpns, Ghost(m_in), Ghost(a_in), Ghost(tf));
            proof {
                lemma_agree_on_tree(&m1, mem, croot);
                assert forall|j: int, k: int|
                    #![trigger walk(mem, croot, (user_space.areas@[j].vpn_range.start.0 + k) as u64)]
                    #![trigger page_copied(mem, croot, &m_in, proot, (user_space.areas@[j].vpn_range.start.0 + k) as u64)]
                    0 <= j < i + 1 && 0 <= k < user_space.areas@[j].vpn_range.len() implies walk(
                        mem,
                        croot,
                        (user_space.areas@[j].vpn_range.start.0 + k) as u64,
                    ) is Some && page_copied(mem, croot, &m_in, proot, (user_space.areas@[j].vpn_range.start.0 + k) as u64) by {
                    let v = (user_space.areas@[j].vpn_range.start.0 + k) as u64;
                    if j < i {
                        assert(page_copied(&m1, croot, &m_in, proot, v));
                        assert(walk(&m1, croot, v) is Some);
                        assert(page_copied(mem, croot, &m_in, proot, v));
                        assert(walk(mem, croot, v) is Some);
                    } else {
                        assert(j == i);
                        assert(vpns@[k].0 == v);
                        assert(page_copied(mem, croot, &m_in, proot, vpns@[k].0));
                        assert(walk(&m1, croot, (area.vpn_range.start.0 + k) as u64) is Some);
                        assert(walk(mem, croot, v) is Some);
                    }
                }
                assert forall|v: u64| #[trigger] walk(mem, croot, v) is Some implies !first_in_slot(user_space.areas@, i + 1, v) by {
                    assert(walk(&m1, croot, v) is Some);
                }
                assert forall|j: int, k: int|
                    0 <= j < i + 1 && 0 <= k < user_space.areas@[j].vpn_range.len() && first_in_slot(
                        user_space.areas@,
                        j,
                        (user_space.areas@[j].vpn_range.start.0 + k) as u64,
                    ) implies #[trigger] walk(mem, croot, (user_space.areas@[j].vpn_range.start.0 + k) as u64) is Some && pte_bits_flags(
                    walk(mem, croot, (user_space.areas@[j].vpn_range.start.0 + k) as u64)->0.bits,
                ) == user_space.areas@[j].map_perm@ | FLAG_V by {
                    assert(walk(&m1, croot, (user_space.areas@[j].vpn_range.start.0 + k) as u64) is Some);
                }
            }
            i = i + 1;
        }
        proof {
            assert forall|p: u64| #[trigger] in_tree(&m_in, proot, p) implies mem.frame(p) == m_in.frame(p) by {
                assert(!a_in.is_free(p));
            }
            lemma_agree_on_tree(&m_in, mem, proot);
            crate::address::lemma_high_pages();
            assert(vpn_sv39((TRAMPOLINE / 4096 + 0) as u64) == vpn_sv39(trampoline_vpn(TRAMPOLINE)));
            law_walk_uses_sv39_bits(mem, croot, (TRAMPOLINE / 4096 + 0) as u64, tv);
            assert forall|ii: int| 0 <= ii < memory_set.areas@.len() implies (#[trigger] memory_set.areas@[ii]).map_type != MapType::Identical
                && memory_set.areas@[ii].vpn_range.len() <= 0x800_0000 by {
                if ii > 0 {
                    assert(area_copy_of(memory_set.areas@[ii], user_space.areas@[ii - 1]));
                }
            }
            assert forall|ii: int, k: int|
                0 <= ii < memory_set.areas@.len() && 0 <= k < memory_set.areas@[ii].vpn_range.len() implies #[trigger] walk(
                mem,
                croot,
                (memory_set.areas@[ii].vpn_range.start.0 + k) as u64,
            ) is Some by {
                if ii > 0 {
                    assert(area_copy_of(memory_set.areas@[ii], user_space.areas@[ii - 1]));
                    assert(walk(mem, croot, (user_space.areas@[ii - 1].vpn_range.start.0 + k) as u64) is Some);
                }
            }
            assert(areas_mapped(mem, croot, memory_set.areas@, 0));
            assert(areas_mapped(&m_in, proot, user_space.areas@, 0));
            assert forall|v: u64| #[trigger] walk(mem, proot, v) is Some implies !in_tree(mem, proot, pte_ppn(walk(mem, proot, v)->0))
                && !allocator@.is_free(pte_ppn(walk(mem, proot, v)->0)) by {
                assert(walk(&m_in, proot, v) is Some);
            }
        }
        memory_set
    }

    /// Copies each page of `vpns` from the frame it maps to under `parent` to the frame it
    /// maps to here.
    fn copy_pages_from(
        &self,
        parent: &MemorySet,
        mem: &mut PhysMem,
        vpns: &Vec<VirtPageNum>,
        Ghost(m_in): Ghost<PhysMem>,
        Ghost(a_in): Ghost<FrameAllocState>,
        Ghost(tf): Ghost<u64>,
    )
        requires
            user_space_ok(&m_in, parent, a_in, tf),
            forall|v: u64| #[trigger] walk(old(mem), parent.page_table.root_ppn.0, v) == walk(&m_in, parent.page_table.root_ppn.0, v),
            forall|p: u64| !a_in.is_free(p) ==> #[trigger] old(mem).frame(p) == m_in.frame(p),
            forall|v: u64|
                #[trigger] walk(old(mem), self.page_table.root_ppn.0, v) is Some ==> {
                    let f = pte_ppn(walk(old(mem), self.page_table.root_ppn.0, v)->0);
                    &&& !in_tree(old(mem), self.page_table.root_ppn.0, f)
                    &&& (f == tf || a_in.is_free(f))
                },
            leaves_distinct(old(mem), self.page_table.root_ppn.0),
            walk(old(mem), self.page_table.root_ppn.0, trampoline_vpn(TRAMPOLINE)) is Some,
            pte_ppn(walk(old(mem), self.page_table.root_ppn.0, trampoline_vpn(TRAMPOLINE))->0) == tf,
            forall|j: int|
                0 <= j < vpns@.len() ==> walk(old(mem), self.page_table.root_ppn.0, (#[trigger] vpns@[j]).0) is Some && walk(
                    &m_in,
                    parent.page_table.root_ppn.0,
                    vpns@[j].0,
                ) is Some,
        ensures
            forall|v: u64| #[trigger] walk(final(mem), self.page_table.root_ppn.0, v) == walk(old(mem), self.page_table.root_ppn.0, v),
            forall|p: u64| #[trigger] in_tree(old(mem), self.page_table.root_ppn.0, p) ==> final(mem).frame(p) == old(mem).frame(p),
            forall|v: u64| #[trigger] walk(final(mem), parent.page_table.root_ppn.0, v) == walk(&m_in, parent.page_table.root_ppn.0, v),
            forall|p: u64| !a_in.is_free(p) ==> #[trigger] final(mem).frame(p) == m_in.frame(p),
            forall|v: u64|
                walk(old(mem), self.page_table.root_ppn.0, v) is Some && page_copied(old(mem), self.page_table.root_ppn.0, &m_in, parent.page_table.root_ppn.0, v)
                    ==> #[trigger] page_copied(final(mem), self.page_table.root_ppn.0, &m_in, parent.page_table.root_ppn.0, v),
            forall|j: int|
                0 <= j < vpns@.len() ==> #[trigger] page_copied(
                    final(mem),
                    self.page_table.root_ppn.0,
                    &m_in,
                    parent.page_table.root_ppn.0,
                    vpns@[j].0,
                ),
    {
        let ghost croot = self.page_table.root_ppn.0;
        let ghost proot = parent.page_table.root_ppn.0;
        let ghost m0 = *mem;
        let ghost tv = trampoline_vpn(TRAMPOLINE);
        let mut idx: usize = 0;
        while idx < vpns.len()
            invariant
                croot == self.page_table.root_ppn.0,
                proot == parent.page_table.root_ppn.0,
                tv == trampoline_vpn(TRAMPOLINE),
                idx <= vpns@.len(),
                user_space_ok(&m_in, parent, a_in, tf),
                forall|v: u64|
                    #[trigger] walk(&m0, croot, v) is Some ==> {
                        let f = pte_ppn(walk(&m0, croot, v)->0);
                        &&& !in_tree(&m0, croot, f)
                        &&& (f == tf || a_in.is_free(f))
                    },
                leaves_distinct(&m0, croot),
                walk(&m0, croot, tv) is Some,
                pte_ppn(walk(&m0, croot, tv)->0) == tf,
                forall|j: int|
                    0 <= j < vpns@.len() ==> walk(&m0, croot, (#[trigger] vpns@[j]).0) is Some && walk(&m_in, proot, vpns@[j].0) is Some,
                forall|v: u64| #[trigger] walk(mem, croot, v) == walk(&m0, croot, v),
                forall|p: u64| #[trigger] in_tree(&m0, croot, p) ==> mem.frame(p) == m0.frame(p),
                forall|v: u64| #[trigger] walk(mem, proot, v) == walk(&m_in, proot, v),
                forall|p: u64| !a_in.is_free(p) ==> #[trigger] mem.frame(p) == m_in.frame(p),
                forall|v: u64|
                    walk(&m0, croot, v) is Some && page_copied(&m0, croot, &m_in, proot, v) ==> #[trigger] page_copied(mem, croot, &m_in, proot, v),
                forall|j: int| 0 <= j < idx ==> #[trigger] page_copied(mem, croot, &m_in, proot, vpns@[j].0),
            decreases vpns@.len() - idx,
        {
            let vpn = vpns[idx];
            let ghost m1 = *mem;
            proof {
                assert(walk(&m0, croot, vpns@[idx as int].0) is Some);
            }
            let src = parent.translate(mem, vpn).unwrap();
            let dst = self.translate(mem, vpn).unwrap();
            mem.copy_frame(src, dst);
            proof {
                let v = vpn.0;
                assert(src.0 == pte_ppn(walk(&m_in, proot, v)->0));
                assert(dst.0 == pte_ppn(walk(&m0, croot, v)->0));
                assert(!a_in.is_free(src.0));
                assert(mem.frame(dst.0) == m_in.frame(src.0));
                // The child's tree is untouched, so its walks are too.
                assert forall|p: u64| #[trigger] in_tree(&m0, croot, p) implies mem.frame(p) == m0.frame(p) by {
                    assert(p != dst.0);
                }
                lemma_agree_on_tree(&m0, mem, croot);
                // The frame written to is the trampoline frame only for the trampoline's slot,
                // where the parent maps the trampoline frame too.
                if dst.0 == tf || !a_in.is_free(dst.0) {
                    assert(dst.0 == tf);
                    if vpn_sv39(v) != vpn_sv39(tv) {
                        assert(pte_ppn(walk(&m0, croot, v)->0) != pte_ppn(walk(&m0, croot, tv)->0));
                    }
                    assert(vpn_sv39(v) == vpn_sv39(tv));
                    law_walk_uses_sv39_bits(&m_in, proot, v, tv);
                    assert(src.0 == tf);
                }
                assert forall|p: u64| !a_in.is_free(p) implies #[trigger] mem.frame(p) == m_in.frame(p) by {
                    if p == dst.0 {
                        assert(m1.frame(tf) == m_in.frame(tf));
                    } else {
                        assert(m1.frame(p) == m_in.frame(p));
                    }
                }
                // The parent's tree is untouched.
                assert forall|p: u64| #[trigger] in_tree(&m_in, proot, p) implies mem.frame(p) == m_in.frame(p) by {
                    assert(!a_in.is_free(p));
                }
                lemma_agree_on_tree(&m_in, mem, proot);
                // Pages that share the frame written to share its slot, hence its source.
                assert forall|w: u64|
                    walk(&m0, croot, w) is Some && page_copied(&m0, croot, &m_in, proot, w) implies #[trigger] page_copied(
                    mem,
                    croot,
                    &m_in,
                    proot,
                    w,
                ) by {
                    assert(page_copied(&m1, croot, &m_in, proot, w));
                    let fw = pte_ppn(walk(&m0, croot, w)->0);
                    if fw == dst.0 {
                        if vpn_sv39(w) != vpn_sv39(v) {
                            assert(pte_ppn(walk(&m0, croot, w)->0) != pte_ppn(walk(&m0, croot, v)->0));
                        }
                        law_walk_uses_sv39_bits(&m_in, proot, w, v);
                    }
                }
                assert forall|j: int| 0 <= j < idx + 1 implies #[trigger] page_copied(mem, croot, &m_in, proot, vpns@[j].0) by {
                    if j < idx {
                        let w = vpns@[j].0;
                        assert(page_copied(&m1, croot, &m_in, proot, w));
                        assert(walk(&m0, croot, w) is Some);
                        let fw = pte_ppn(walk(&m0, croot, w)->0);
                        if fw == dst.0 {
                            if vpn_sv39(w) != vpn_sv39(v) {
                                assert(pte_ppn(walk(&m0, croot, w)->0) != pte_ppn(walk(&m0, croot, v)->0));
                            }
                            law_walk_uses_sv39_bits(&m_in, proot, w, v);
                        }
                    }
                }
            }
            idx = idx + 1;
        }
    }
}

} // verus!
