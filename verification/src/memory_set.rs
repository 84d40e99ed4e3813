//! Address spaces: a page table and the map areas mapped in it.
use vstd::prelude::*;

use crate::address::{vpn_sv39, PhysPageNum, VirtAddr, VirtPageNum};
use crate::config::TRAMPOLINE;
use crate::frame::{FrameAllocState, FrameAllocator};
use crate::map_area::{area_ppn, copied_byte, map_budget, tables_grow_in, copy_mapped, copy_target, mapped_walk, outside_slots, MapArea, MapType};
use crate::page_table::{
    alloc_ok_for, alloc_shrinks, changed_only, in_tree, lemma_agree_on_tree, lemma_alloc_ok_step,
    law_walk_uses_sv39_bits, mapped_pte, satp_of, translate_va_spec, tree_extends, tree_wf, walk,
    walk_after_map, PageTable,
};
use crate::phys_mem::PhysMem;
use crate::pte::{law_pte_roundtrip, pte_bits_ppn, pte_ppn, PTEFlags, FLAG_R, FLAG_X};

verus! {

/// The page numbers of the data frames of an area: those of a framed or fixed area other than
/// the trampoline's (whose frame the kernel shares); an identical area owns no frame.
pub open spec fn area_frames(a: MapArea) -> Seq<u64> {
    if a.map_type != MapType::Identical && a.vpn_range.start.0 != TRAMPOLINE / 4096 {
        a.data_frames@.map_values(|p: PhysPageNum| p.0)
    } else {
        Seq::empty()
    }
}

/// The data frames of the areas, area after area.
pub open spec fn owned_data_frames(areas: Seq<MapArea>) -> Seq<u64>
    decreases areas.len(),
{
    if areas.len() == 0 {
        Seq::empty()
    } else {
        owned_data_frames(areas.drop_last()) + area_frames(areas.last())
    }
}

/// The data frames of the areas can all be given back: each was handed out and is not
/// free, and none occurs twice.
pub open spec fn frames_recyclable(areas: Seq<MapArea>, a: FrameAllocState) -> bool {
    &&& owned_data_frames(areas).no_duplicates()
    &&& forall|i: int| 0 <= i < owned_data_frames(areas).len() ==> {
        &&& #[trigger] owned_data_frames(areas)[i] < a.current
        &&& !a.recycled.contains(owned_data_frames(areas)[i])
    }
}

/// An address space.
pub struct MemorySet {
    pub page_table: PageTable,
    pub areas: Vec<MapArea>,
}

/// The page table of an address space is a tree, and the allocator hands out only frames
/// outside it.
pub open spec fn space_ok(mem: &PhysMem, ms: &MemorySet, a: FrameAllocState) -> bool {
    &&& tree_wf(mem, ms.page_table.root_ppn.0)
    &&& alloc_ok_for(mem, ms.page_table.root_ppn.0, a)
}

/// Every mapped page of the address space maps to a frame that is neither a table of it nor
/// free (as in an address space whose pages all got frames of their own).
pub open spec fn leaves_ok(mem: &PhysMem, root: u64, a: FrameAllocState) -> bool {
    forall|v: u64|
        #[trigger] walk(mem, root, v) is Some ==> !in_tree(mem, root, pte_ppn(walk(mem, root, v)->0)) && !a.is_free(
            pte_ppn(walk(mem, root, v)->0),
        )
}

/// Pages in different slots map to different frames.
pub open spec fn leaves_distinct(mem: &PhysMem, root: u64) -> bool {
    forall|v1: u64, v2: u64|
        #[trigger] walk(mem, root, v1) is Some && #[trigger] walk(mem, root, v2) is Some && vpn_sv39(v1) != vpn_sv39(v2)
            ==> pte_ppn(walk(mem, root, v1)->0) != pte_ppn(walk(mem, root, v2)->0)
}

/// Byte `k` of data copied to `start` lands somewhere among the first `n` bytes.
pub open spec fn is_copy_target(m: &PhysMem, root: u64, start: u64, n: int, a: u64) -> bool {
    exists|k: int| 0 <= k < n && #[trigger] copy_target(m, root, start, k) == a
}

/// Where a byte was copied depends only on the walks.
proof fn lemma_copied_byte_walks(m1: &PhysMem, m2: &PhysMem, root: u64, start: u64, data: Seq<u8>, n: int, a: u64)
    requires
        forall|v: u64| #[trigger] walk(m2, root, v) == walk(m1, root, v),
        is_copy_target(m1, root, start, n, a),
    ensures
        copied_byte(m2, root, start, data, n, a) == copied_byte(m1, root, start, data, n, a),
    decreases n,
{
    assert(copy_target(m2, root, start, n - 1) == copy_target(m1, root, start, n - 1));
    if copy_target(m1, root, start, n - 1) != a {
        let k = choose|k: int| 0 <= k < n && #[trigger] copy_target(m1, root, start, k) == a;
        assert(k < n - 1);
        assert(is_copy_target(m1, root, start, n - 1, a));
        lemma_copied_byte_walks(m1, m2, root, start, data, n - 1, a);
    }
}

/// A byte that no copied byte lands on keeps what it held.
proof fn lemma_copied_byte_not_target(m: &PhysMem, root: u64, start: u64, data: Seq<u8>, n: int, a: u64)
    requires
        !is_copy_target(m, root, start, n, a),
    ensures
        copied_byte(m, root, start, data, n, a) == m.byte(a),
    decreases n,
{
    if n > 0 {
        assert(copy_target(m, root, start, n - 1) != a);
        assert(!is_copy_target(m, root, start, n - 1, a)) by {
            if is_copy_target(m, root, start, n - 1, a) {
                let k = choose|k: int| 0 <= k < n - 1 && #[trigger] copy_target(m, root, start, k) == a;
                assert(copy_target(m, root, start, k) == a);
            }
        }
        lemma_copied_byte_not_target(m, root, start, data, n - 1, a);
    }
}

/// When no two bytes land on one address, each byte holds what was copied to it.
pub proof fn law_copied_byte_injective(m: &PhysMem, root: u64, start: u64, data: Seq<u8>, n: int, k: int)
    requires
        0 <= k < n,
        forall|k1: int, k2: int|
            0 <= k1 < n && 0 <= k2 < n && k1 != k2 ==> #[trigger] copy_target(m, root, start, k1) != #[trigger] copy_target(m, root, start, k2),
    ensures
        copied_byte(m, root, start, data, n, copy_target(m, root, start, k)) == data[k],
    decreases n,
{
    if k < n - 1 {
        assert(copy_target(m, root, start, n - 1) != copy_target(m, root, start, k));
        law_copied_byte_injective(m, root, start, data, n - 1, k);
    }
}

impl MemorySet {
    /// An address space with an empty page table and no area.
    pub fn new_bare(mem: &mut PhysMem, allocator: &mut FrameAllocator) -> (r: MemorySet)
        requires
            old(allocator)@.wf(),
            old(allocator)@.can_alloc(),
            old(allocator)@.end <= 0x1000_0000_0000,
            forall|p: u64| #[trigger] old(allocator)@.is_free(p) ==> p < 0x1000_0000_0000,
        ensures
            space_ok(final(mem), &r, final(allocator)@),
            leaves_ok(final(mem), r.page_table.root_ppn.0, final(allocator)@),
            alloc_shrinks(old(allocator)@, final(allocator)@),
            (final(allocator)@, Some(r.page_table.root_ppn.0)) == old(allocator)@.alloc_spec(),
            forall|p: u64| p != r.page_table.root_ppn.0 ==> #[trigger] final(mem).frame(p) == old(mem).frame(p),
            forall|p: u64| #[trigger] in_tree(final(mem), r.page_table.root_ppn.0, p) <==> p == r.page_table.root_ppn.0,
            forall|v: u64| #[trigger] walk(final(mem), r.page_table.root_ppn.0, v) is None,
            forall|a: u64| a < 512 ==> !#[trigger] crate::page_table::v0(final(mem), r.page_table.root_ppn.0, a),
            r.areas@ == Seq::<MapArea>::empty(),
            r.page_table.owned_frames() == seq![r.page_table.root_ppn],
    {
        proof {
            crate::frame::lemma_alloc_free_set(old(allocator)@);
        }
        let page_table = PageTable::new(mem, allocator);
        MemorySet { page_table, areas: Vec::new() }
    }

    /// An address space with an empty page table and no area.
    pub fn new(mem: &mut PhysMem, allocator: &mut FrameAllocator) -> (r: MemorySet)
        requires
            old(allocator)@.wf(),
            old(allocator)@.can_alloc(),
            old(allocator)@.end <= 0x1000_0000_0000,
            forall|p: u64| #[trigger] old(allocator)@.is_free(p) ==> p < 0x1000_0000_0000,
        ensures
            space_ok(final(mem), &r, final(allocator)@),
            leaves_ok(final(mem), r.page_table.root_ppn.0, final(allocator)@),
            alloc_shrinks(old(allocator)@, final(allocator)@),
            (final(allocator)@, Some(r.page_table.root_ppn.0)) == old(allocator)@.alloc_spec(),
            forall|p: u64| p != r.page_table.root_ppn.0 ==> #[trigger] final(mem).frame(p) == old(mem).frame(p),
            forall|p: u64| #[trigger] in_tree(final(mem), r.page_table.root_ppn.0, p) <==> p == r.page_table.root_ppn.0,
            forall|v: u64| #[trigger] walk(final(mem), r.page_table.root_ppn.0, v) is None,
            forall|a: u64| a < 512 ==> !#[trigger] crate::page_table::v0(final(mem), r.page_table.root_ppn.0, a),
            r.areas@ == Seq::<MapArea>::empty(),
            r.page_table.owned_frames() == seq![r.page_table.root_ppn],
    {
        Self::new_bare(mem, allocator)
    }

    /// The `satp` value that activates this address space.
    pub fn token(&self) -> (r: u64)
        ensures
            r == satp_of(self.page_table.root_ppn.0),
    {
        self.satp()
    }

    /// The `satp` value that activates this address space.
    pub fn satp(&self) -> (r: u64)
        ensures
            r == satp_of(self.page_table.root_ppn.0),
    {
        self.page_table.satp()
    }

    /// The frame that page `vpn` maps to.
    pub fn translate(&self, mem: &PhysMem, vpn: VirtPageNum) -> (r: Option<PhysPageNum>)
        ensures
            r == (match walk(mem, self.page_table.root_ppn.0, vpn.0) {
                Some(e) => Some(PhysPageNum(pte_ppn(e))),
                None => None,
            }),
    {
        match self.page_table.translate(mem, vpn) {
            Some(pte) => Some(pte.ppn()),
            None => None,
        }
    }

    /// Gives the data frames of the areas (framed pages and the fixed trap-context page) back
    /// to the allocator, in order, and forgets every area. The trampoline's area is skipped:
    /// its frame is the kernel's. The page table stays as it is.
    pub fn recycle_data_pages(&mut self, allocator: &mut FrameAllocator)
        requires
            frames_recyclable(old(self).areas@, old(allocator)@),
        ensures
            final(self).page_table == old(self).page_table,
            final(self).areas@ == Seq::<MapArea>::empty(),
            final(allocator)@ == (FrameAllocState {
                recycled: old(allocator)@.recycled + owned_data_frames(old(self).areas@),
                ..old(allocator)@
            }),
            old(allocator)@.wf() ==> final(allocator)@.wf(),
    {
        let mut frames: Vec<u64> = Vec::new();
        let mut i: usize = 0;
        while i < self.areas.len()
            invariant
                i <= self.areas@.len(),
                self.areas@ == old(self).areas@,
                frames@ == owned_data_frames(self.areas@.subrange(0, i as int)),
            decreases self.areas@.len() - i,
        {
            proof {
                assert(self.areas@.subrange(0, i + 1).drop_last() =~= self.areas@.subrange(0, i as int));
            }
            if self.areas[i].map_type != MapType::Identical && self.areas[i].vpn_range.start.0 != TRAMPOLINE / 4096 {
                let ghost base = frames@;
                let n = self.areas[i].data_frames.len();
                let mut j: usize = 0;
                while j < n
                    invariant
                        i < self.areas@.len(),
                        self.areas@ == old(self).areas@,
                        n == self.areas@[i as int].data_frames@.len(),
                        self.areas@[i as int].map_type != MapType::Identical,
                        self.areas@[i as int].vpn_range.start.0 != TRAMPOLINE / 4096,
                        j <= n,
                        frames@ == base + area_frames(self.areas@[i as int]).subrange(0, j as int),
                    decreases n - j,
                {
                    frames.push(self.areas[i].data_frames[j].0);
                    proof {
                        assert(frames@ =~= base + area_frames(self.areas@[i as int]).subrange(0, j + 1));
                    }
                    j = j + 1;
                }
                proof {
                    assert(area_frames(self.areas@[i as int]).subrange(0, n as int) =~= area_frames(self.areas@[i as int]));
                }
            } else {
                proof {
                    assert(frames@ =~= frames@ + area_frames(self.areas@[i as int]));
                }
            }
            i = i + 1;
        }
        proof {
            assert(self.areas@.subrange(0, self.areas@.len() as int) =~= self.areas@);
        }
        let ghost a0 = allocator@;
        let mut k: usize = 0;
        while k < frames.len()
            invariant
                k <= frames@.len(),
                frames@ == owned_data_frames(old(self).areas@),
                frames_recyclable(old(self).areas@, a0),
                allocator@ == (FrameAllocState { recycled: a0.recycled + frames@.subrange(0, k as int), ..a0 }),
                a0.wf() ==> allocator@.wf(),
            decreases frames@.len() - k,
        {
            let p = frames[k];
            proof {
                assert(p < a0.current);
                if (a0.recycled + frames@.subrange(0, k as int)).contains(p) {
                    let q = choose|q: int| 0 <= q < a0.recycled.len() + k && #[trigger] (a0.recycled + frames@.subrange(0, k as int))[q] == p;
                    if q >= a0.recycled.len() {
                        assert(frames@[q - a0.recycled.len()] == p);
                    } else {
                        assert(a0.recycled.contains(p));
                    }
                }
            }
            allocator.dealloc(PhysPageNum(p));
            proof {
                assert(a0.recycled + frames@.subrange(0, k + 1) =~= (a0.recycled + frames@.subrange(0, k as int)).push(p));
            }
            k = k + 1;
        }
        proof {
            assert(frames@.subrange(0, frames@.len() as int) =~= frames@);
        }
        self.areas.clear();
    }

    /// Maps `area` into the address space, copies `data` (if any) to its start, and keeps the
    /// area.
    pub fn push(&mut self, mem: &mut PhysMem, allocator: &mut FrameAllocator, area: MapArea, data: Option<&[u8]>)
        requires
            space_ok(old(mem), old(self), old(allocator)@),
            area.vpn_range.len() <= 0x800_0000,
            old(allocator)@.aligned_count() >= map_budget(area.map_type == MapType::Framed, area.vpn_range.start.0, area.vpn_range.len() as int),
            data matches Some(d) ==> {
                &&& area.map_type == MapType::Framed
                &&& leaves_ok(old(mem), old(self).page_table.root_ppn.0, old(allocator)@)
                &&& area.start_va.0 + d@.len() <= u64::MAX
                &&& forall|k: int|
                    0 <= k < d@.len() ==> area.vpn_range.start.0 <= (#[trigger] (area.start_va.0 + k)) / 4096
                        < area.vpn_range.end.0
            },
        ensures
            old(self).page_table.owned_frames().is_prefix_of(final(self).page_table.owned_frames()),
            final(self).page_table.root_ppn == old(self).page_table.root_ppn,
            space_ok(final(mem), final(self), final(allocator)@),
            alloc_shrinks(old(allocator)@, final(allocator)@),
            tree_extends(old(mem), final(mem), old(self).page_table.root_ppn.0, old(allocator)@, final(allocator)@),
            final(allocator)@.aligned_count() >= old(allocator)@.aligned_count() - map_budget(
                area.map_type == MapType::Framed,
                area.vpn_range.start.0,
                area.vpn_range.len() as int,
            ),
            tables_grow_in(old(mem), final(mem), old(self).page_table.root_ppn.0, area.vpn_range.start.0, area.vpn_range.len() as int),
            final(self).areas@.len() == old(self).areas@.len() + 1,
            old(self).areas@.is_prefix_of(final(self).areas@),
            ({
                let a = final(self).areas@.last();
                &&& a.vpn_range == area.vpn_range
                &&& a.start_va == area.start_va
                &&& a.map_type == area.map_type
                &&& a.map_perm == area.map_perm
                &&& area.map_type != MapType::Framed ==> a.data_frames@ == area.data_frames@
                &&& area.map_type == MapType::Framed ==> {
                    &&& a.data_frames@.len() == area.data_frames@.len() + area.vpn_range.len()
                    &&& area.data_frames@.is_prefix_of(a.data_frames@)
                    &&& forall|i: int| area.data_frames@.len() <= i < a.data_frames@.len() ==> {
                        &&& old(allocator)@.is_free(#[trigger] a.data_frames@[i].0)
                        &&& !final(allocator)@.is_free(a.data_frames@[i].0)
                    }
                    &&& forall|i: int, j: int|
                        area.data_frames@.len() <= i < j < a.data_frames@.len() ==> #[trigger] a.data_frames@[i] != #[trigger] a.data_frames@[j]
                }
                &&& forall|k: int|
                    0 <= k < area.vpn_range.len() ==> #[trigger] walk(
                        final(mem),
                        final(self).page_table.root_ppn.0,
                        (area.vpn_range.start.0 + k) as u64,
                    ) == mapped_walk(
                        old(mem),
                        old(self).page_table.root_ppn.0,
                        (area.vpn_range.start.0 + k) as u64,
                        area_ppn(area.map_type, a.data_frames@, area.data_frames@.len() as int, area.vpn_range.start.0, k),
                        area.map_perm@,
                    )
            }),
            forall|v: u64|
                outside_slots(area.vpn_range.start.0, area.vpn_range.len() as int, v) ==> #[trigger] walk(
                    final(mem),
                    final(self).page_table.root_ppn.0,
                    v,
                ) == walk(old(mem), old(self).page_table.root_ppn.0, v),
            forall|v: u64|
                #[trigger] walk(old(mem), old(self).page_table.root_ppn.0, v) is Some ==> walk(
                    final(mem),
                    final(self).page_table.root_ppn.0,
                    v,
                ) == walk(old(mem), old(self).page_table.root_ppn.0, v),
            forall|k: int|
                0 <= k < area.vpn_range.len() ==> #[trigger] walk(
                    final(mem),
                    final(self).page_table.root_ppn.0,
                    (area.vpn_range.start.0 + k) as u64,
                ) is Some,
            data is None ==> changed_only(old(mem), final(mem), old(self).page_table.root_ppn.0, old(allocator)@, final(allocator)@),
            (area.map_type == MapType::Framed && leaves_ok(old(mem), old(self).page_table.root_ppn.0, old(allocator)@))
                ==> leaves_ok(final(mem), final(self).page_table.root_ppn.0, final(allocator)@),
            (area.map_type == MapType::Framed && leaves_ok(old(mem), old(self).page_table.root_ppn.0, old(allocator)@)
                && leaves_distinct(old(mem), old(self).page_table.root_ppn.0))
                ==> leaves_distinct(final(mem), final(self).page_table.root_ppn.0),
            data matches Some(d) ==> {
                &&& forall|k: int| 0 <= k < d@.len() ==> #[trigger] copy_mapped(final(mem), final(self).page_table.root_ppn.0, area.start_va.0, k)
                &&& forall|k: int|
                    0 <= k < d@.len() ==> final(mem).byte(#[trigger] copy_target(final(mem), final(self).page_table.root_ppn.0, area.start_va.0, k))
                        == copied_byte(
                        final(mem),
                        final(self).page_table.root_ppn.0,
                        area.start_va.0,
                        d@,
                        d@.len() as int,
                        copy_target(final(mem), final(self).page_table.root_ppn.0, area.start_va.0, k),
                    )
                &&& forall|p: u64|
                    !in_tree(old(mem), old(self).page_table.root_ppn.0, p) && !(old(allocator)@.is_free(p) && !final(allocator)@.is_free(p))
                        && (forall|k: int| 0 <= k < d@.len() ==> #[trigger] copy_target(final(mem), final(self).page_table.root_ppn.0, area.start_va.0, k) / 4096 != p)
                        ==> #[trigger] final(mem).frame(p) == old(mem).frame(p)
                &&& forall|a: u64|
                    !in_tree(old(mem), old(self).page_table.root_ppn.0, a / 4096) && !(old(allocator)@.is_free(a / 4096)
                        && !final(allocator)@.is_free(a / 4096)) && !is_copy_target(
                        final(mem),
                        final(self).page_table.root_ppn.0,
                        area.start_va.0,
                        d@.len() as int,
                        a,
                    ) ==> #[trigger] final(mem).byte(a) == old(mem).byte(a)
            },
    {
        let ghost root = self.page_table.root_ppn.0;
        let ghost m0 = *mem;
        let ghost a0 = allocator@;
        let ghost start = area.vpn_range.start.0;
        let ghost n = area.vpn_range.len();
        let ghost base = area.data_frames@.len() as int;
        let ghost perm = area.map_perm@;
        let mut area = area;
        area.map(&mut self.page_table, mem, allocator);
        let ghost m1 = *mem;
        proof {
            if area.map_type == MapType::Framed && leaves_ok(&m0, root, a0) {
                lemma_leaves_after_map(&m0, &m1, root, a0, allocator@, start, n, perm, area.data_frames@, base);
                if leaves_distinct(&m0, root) {
                    lemma_leaves_distinct_after_map(&m0, &m1, root, a0, allocator@, start, n, perm, area.data_frames@, base);
                }
            }
        }
        match data {
            Some(d) => {
                proof {
                    assert forall|k: int| 0 <= k < d@.len() implies copy_mapped(&m1, root, area.start_va.0, k) && !in_tree(
                        &m1,
                        root,
                        #[trigger] copy_target(&m1, root, area.start_va.0, k) / 4096,
                    ) by {
                        let va = (area.start_va.0 + k) as u64;
                        let page = va / 4096;
                        let j = page - start;
                        assert(area.vpn_range.start.0 <= (area.start_va.0 + k) / 4096 < area.vpn_range.end.0);
                        assert(0 <= j < n);
                        assert(page == (start + j) as u64);
                        assert(walk(&m1, root, page) is Some);
                        crate::page_table::law_translate_keeps_offset(&m1, root, va);
                    }
                    assert forall|k: int| 0 <= k < d@.len() implies #[trigger] copy_mapped(&m1, root, area.start_va.0, k) by {
                        let va = (area.start_va.0 + k) as u64;
                        let page = va / 4096;
                        let j = page - start;
                        assert(area.vpn_range.start.0 <= (area.start_va.0 + k) / 4096 < area.vpn_range.end.0);
                        assert(page == (start + j) as u64);
                        assert(walk(&m1, root, page) is Some);
                    }
                }
                area.copy_data(&self.page_table, mem, d);
                proof {
                    lemma_agree_on_tree(&m1, mem, root);
                    assert forall|k: int|
                        0 <= k < d@.len() implies mem.byte(#[trigger] copy_target(mem, root, area.start_va.0, k)) == copied_byte(
                        mem,
                        root,
                        area.start_va.0,
                        d@,
                        d@.len() as int,
                        copy_target(mem, root, area.start_va.0, k),
                    ) by {
                        let a = copy_target(mem, root, area.start_va.0, k);
                        assert(copy_target(&m1, root, area.start_va.0, k) == a);
                        assert(is_copy_target(&m1, root, area.start_va.0, d@.len() as int, a));
                        lemma_copied_byte_walks(&m1, mem, root, area.start_va.0, d@, d@.len() as int, a);
                    }
                    assert forall|k: int| 0 <= k < d@.len() implies #[trigger] copy_mapped(mem, root, area.start_va.0, k) by {
                        assert(copy_mapped(&m1, root, area.start_va.0, k));
                    }
                    assert forall|a: u64|
                        !in_tree(&m0, root, a / 4096) && !(a0.is_free(a / 4096) && !allocator@.is_free(a / 4096)) && !is_copy_target(
                            mem,
                            root,
                            area.start_va.0,
                            d@.len() as int,
                            a,
                        ) implies #[trigger] mem.byte(a) == m0.byte(a) by {
                        if is_copy_target(&m1, root, area.start_va.0, d@.len() as int, a) {
                            let k = choose|k: int| 0 <= k < d@.len() && #[trigger] copy_target(&m1, root, area.start_va.0, k) == a;
                            assert(copy_target(mem, root, area.start_va.0, k) == copy_target(&m1, root, area.start_va.0, k));
                        }
                        lemma_copied_byte_not_target(&m1, root, area.start_va.0, d@, d@.len() as int, a);
                        assert(m1.frame(a / 4096) == m0.frame(a / 4096));
                    }
                    assert forall|p: u64|
                        !in_tree(&m0, root, p) && !(a0.is_free(p) && !allocator@.is_free(p))
                            && (forall|k: int| 0 <= k < d@.len() ==> #[trigger] copy_target(mem, root, area.start_va.0, k) / 4096 != p)
                        implies #[trigger] mem.frame(p) == m0.frame(p) by {
                        assert(m1.frame(p) == m0.frame(p));
                        assert forall|k: int| 0 <= k < d@.len() implies #[trigger] copy_target(&m1, root, area.start_va.0, k) / 4096 != p by {
                            assert(copy_target(mem, root, area.start_va.0, k) == copy_target(&m1, root, area.start_va.0, k));
                        }
                    }
                    if leaves_ok(&m0, root, a0) {
                        assert forall|v: u64| #[trigger] walk(mem, root, v) is Some implies !in_tree(mem, root, pte_ppn(walk(mem, root, v)->0)) && !allocator@.is_free(
                            pte_ppn(walk(mem, root, v)->0),
                        ) by {
                            assert(walk(&m1, root, v) is Some);
                        }
                    }
                }
            },
            None => {},
        }
        let ghost ty = area.map_type;
        self.areas.push(area);
        proof {
            assert(old(self).areas@.is_prefix_of(self.areas@));
            let frames = self.areas@.last().data_frames@;
            lemma_mapped_stays(&m0, mem, root, start, n, |k: int| area_ppn(ty, frames, base, start, k), perm);
        }
    }
}

/// Mapping the pages `[start, start + n)` keeps every page that was mapped as it was, and
/// leaves every page of the range mapped.
proof fn lemma_mapped_stays(m0: &PhysMem, m1: &PhysMem, root: u64, start: u64, n: nat, ppns: spec_fn(int) -> u64, perm: u8)
    requires
        forall|k: int|
            0 <= k < n ==> #[trigger] walk(m1, root, (start + k) as u64) == mapped_walk(m0, root, (start + k) as u64, ppns(k), perm),
        forall|v: u64| outside_slots(start, n as int, v) ==> #[trigger] walk(m1, root, v) == walk(m0, root, v),
    ensures
        forall|v: u64| #[trigger] walk(m0, root, v) is Some ==> walk(m1, root, v) == walk(m0, root, v),
        forall|k: int| 0 <= k < n ==> #[trigger] walk(m1, root, (start + k) as u64) is Some,
{
    assert forall|k: int| 0 <= k < n implies #[trigger] walk(m1, root, (start + k) as u64) is Some by {
        assert(walk(m1, root, (start + k) as u64) == mapped_walk(m0, root, (start + k) as u64, ppns(k), perm));
    }
    assert forall|v: u64| #[trigger] walk(m0, root, v) is Some implies walk(m1, root, v) == walk(m0, root, v) by {
        if !outside_slots(start, n as int, v) {
            let k = choose|k: int| 0 <= k < n && !(vpn_sv39(v) != #[trigger] vpn_sv39((start + k) as u64));
            law_walk_uses_sv39_bits(m0, root, v, (start + k) as u64);
            law_walk_uses_sv39_bits(m1, root, v, (start + k) as u64);
            assert(walk(m1, root, (start + k) as u64) == mapped_walk(m0, root, (start + k) as u64, ppns(k), perm));
        }
    }
}

/// After mapping a framed area into an address space whose pages all have frames of their
/// own, every page still has a frame of its own, and every page of the area is mapped.
proof fn lemma_leaves_after_map(
    m0: &PhysMem,
    m1: &PhysMem,
    root: u64,
    a0: FrameAllocState,
    a1: FrameAllocState,
    start: u64,
    n: nat,
    perm: u8,
    frames: Seq<PhysPageNum>,
    base: int,
)
    requires
        alloc_shrinks(a0, a1),
        alloc_ok_for(m0, root, a0),
        tree_extends(m0, m1, root, a0, a1),
        leaves_ok(m0, root, a0),
        0 <= base,
        frames.len() == base + n,
        forall|i: int|
            base <= i < frames.len() ==> {
                &&& a0.is_free(#[trigger] frames[i].0)
                &&& !a1.is_free(frames[i].0)
                &&& !in_tree(m1, root, frames[i].0)
            },
        forall|k: int|
            0 <= k < n ==> #[trigger] walk(m1, root, (start + k) as u64) == mapped_walk(
                m0,
                root,
                (start + k) as u64,
                area_ppn(MapType::Framed, frames, base, start, k),
                perm,
            ),
        forall|v: u64| outside_slots(start, n as int, v) ==> #[trigger] walk(m1, root, v) == walk(m0, root, v),
    ensures
        leaves_ok(m1, root, a1),
        forall|k: int| 0 <= k < n ==> #[trigger] walk(m1, root, (start + k) as u64) is Some,
{
    assert forall|k: int| 0 <= k < n implies #[trigger] walk(m1, root, (start + k) as u64) is Some by {
        assert(walk(m1, root, (start + k) as u64) == mapped_walk(m0, root, (start + k) as u64, area_ppn(MapType::Framed, frames, base, start, k), perm));
    }
    assert forall|v: u64| #[trigger] walk(m1, root, v) is Some implies !in_tree(m1, root, pte_ppn(walk(m1, root, v)->0)) && !a1.is_free(
        pte_ppn(walk(m1, root, v)->0),
    ) by {
        if outside_slots(start, n as int, v) {
            assert(walk(m0, root, v) is Some);
            let q = pte_ppn(walk(m0, root, v)->0);
            assert(!in_tree(m0, root, q) && !a0.is_free(q));
        } else {
            let k = choose|k: int| 0 <= k < n && !(vpn_sv39(v) != #[trigger] vpn_sv39((start + k) as u64));
            law_walk_uses_sv39_bits(m1, root, v, (start + k) as u64);
            law_walk_uses_sv39_bits(m0, root, v, (start + k) as u64);
            if walk(m0, root, (start + k) as u64) is None {
                let f = frames[base + k].0;
                assert(a0.is_free(f));
                assert(f < 0x1000_0000_0000);
                law_pte_roundtrip(f, perm | crate::pte::FLAG_V);
                assert(pte_ppn(walk(m1, root, v)->0) == f);
            } else {
                let q = pte_ppn(walk(m0, root, v)->0);
                assert(!in_tree(m0, root, q) && !a0.is_free(q));
            }
        }
    }
}

/// Mapping a framed area with fresh, pairwise different frames keeps pages in different
/// slots on different frames.
proof fn lemma_leaves_distinct_after_map(
    m0: &PhysMem,
    m1: &PhysMem,
    root: u64,
    a0: FrameAllocState,
    a1: FrameAllocState,
    start: u64,
    n: nat,
    perm: u8,
    frames: Seq<PhysPageNum>,
    base: int,
)
    requires
        leaves_ok(m0, root, a0),
        leaves_distinct(m0, root),
        0 <= base,
        n <= 0x800_0000,
        frames.len() == base + n,
        forall|i: int| base <= i < frames.len() ==> a0.is_free(#[trigger] frames[i].0) && frames[i].0 < 0x1000_0000_0000,
        forall|i: int, j: int| base <= i < j < frames.len() ==> #[trigger] frames[i] != #[trigger] frames[j],
        forall|k: int|
            0 <= k < n ==> #[trigger] walk(m1, root, (start + k) as u64) == mapped_walk(
                m0,
                root,
                (start + k) as u64,
                area_ppn(MapType::Framed, frames, base, start, k),
                perm,
            ),
        forall|v: u64| outside_slots(start, n as int, v) ==> #[trigger] walk(m1, root, v) == walk(m0, root, v),
    ensures
        leaves_distinct(m1, root),
{
    assert forall|v1: u64, v2: u64|
        #[trigger] walk(m1, root, v1) is Some && #[trigger] walk(m1, root, v2) is Some && vpn_sv39(v1) != vpn_sv39(v2)
        implies pte_ppn(walk(m1, root, v1)->0) != pte_ppn(walk(m1, root, v2)->0) by {
        let f1 = pte_ppn(walk(m1, root, v1)->0);
        let f2 = pte_ppn(walk(m1, root, v2)->0);
        let new1 = !outside_slots(start, n as int, v1) && walk(m0, root, v1) is None;
        let new2 = !outside_slots(start, n as int, v2) && walk(m0, root, v2) is None;
        let k1 = choose|k: int| 0 <= k < n && !(vpn_sv39(v1) != #[trigger] vpn_sv39((start + k) as u64));
        let k2 = choose|k: int| 0 <= k < n && !(vpn_sv39(v2) != #[trigger] vpn_sv39((start + k) as u64));
        if !outside_slots(start, n as int, v1) {
            law_walk_uses_sv39_bits(m1, root, v1, (start + k1) as u64);
            law_walk_uses_sv39_bits(m0, root, v1, (start + k1) as u64);
            assert(walk(m1, root, (start + k1) as u64) == mapped_walk(m0, root, (start + k1) as u64, frames[base + k1].0, perm));
            if new1 {
                law_pte_roundtrip(frames[base + k1].0, perm | crate::pte::FLAG_V);
                assert(f1 == frames[base + k1].0);
            }
        }
        if !outside_slots(start, n as int, v2) {
            law_walk_uses_sv39_bits(m1, root, v2, (start + k2) as u64);
            law_walk_uses_sv39_bits(m0, root, v2, (start + k2) as u64);
            assert(walk(m1, root, (start + k2) as u64) == mapped_walk(m0, root, (start + k2) as u64, frames[base + k2].0, perm));
            if new2 {
                law_pte_roundtrip(frames[base + k2].0, perm | crate::pte::FLAG_V);
                assert(f2 == frames[base + k2].0);
            }
        }
        if !new1 {
            assert(walk(m1, root, v1) == walk(m0, root, v1));
        }
        if !new2 {
            assert(walk(m1, root, v2) == walk(m0, root, v2));
        }
        if new1 && new2 {
            assert(k1 != k2);
            if k1 < k2 {
                assert(frames[base + k1] != frames[base + k2]);
            } else {
                assert(frames[base + k2] != frames[base + k1]);
            }
        } else if new1 {
            assert(!a0.is_free(f2));
            assert(a0.is_free(frames[base + k1].0));
        } else if new2 {
            assert(!a0.is_free(f1));
            assert(a0.is_free(frames[base + k2].0));
        }
    }
}

/// Index `i` holds the first area of `areas` that starts at `start`.
pub open spec fn first_area_at(areas: Seq<MapArea>, start: VirtPageNum, i: int) -> bool {
    &&& 0 <= i < areas.len()
    &&& areas[i].vpn_range.start == start
    &&& forall|j: int| 0 <= j < i ==> (#[trigger] areas[j]).vpn_range.start != start
}

/// The page number of the trampoline (the low 27 bits of its address's page number).
pub open spec fn trampoline_vpn(va: u64) -> u64 {
    ((va / 4096) % 0x800_0000) as u64
}

impl MemorySet {
    /// Maps the trampoline frame at `trampoline_va` (readable and executable) and keeps a
    /// one-page area for it.
    pub fn map_trampoline(&mut self, mem: &mut PhysMem, allocator: &mut FrameAllocator, trampoline_frame: PhysPageNum, trampoline_va: u64)
        requires
            space_ok(old(mem), old(self), old(allocator)@),
            old(allocator)@.aligned_count() >= crate::page_table::tables_needed(old(mem), old(self).page_table.root_ppn.0, trampoline_vpn(trampoline_va)),
        ensures
            old(self).page_table.owned_frames().is_prefix_of(final(self).page_table.owned_frames()),
            final(self).page_table.root_ppn == old(self).page_table.root_ppn,
            space_ok(final(mem), final(self), final(allocator)@),
            alloc_shrinks(old(allocator)@, final(allocator)@),
            tree_extends(old(mem), final(mem), old(self).page_table.root_ppn.0, old(allocator)@, final(allocator)@),
            changed_only(old(mem), final(mem), old(self).page_table.root_ppn.0, old(allocator)@, final(allocator)@),
            final(allocator)@.aligned_count() == old(allocator)@.aligned_count() - crate::page_table::tables_needed(
                old(mem),
                old(self).page_table.root_ppn.0,
                trampoline_vpn(trampoline_va),
            ),
            forall|v: u64|
                #[trigger] walk(final(mem), final(self).page_table.root_ppn.0, v) == walk_after_map(
                    old(mem),
                    old(self).page_table.root_ppn.0,
                    trampoline_vpn(trampoline_va),
                    trampoline_frame.0,
                    FLAG_R | FLAG_X,
                    v,
                ),
            final(self).areas@ == old(self).areas@.push(final(self).areas@.last()),
            final(self).areas@.last().vpn_range.start.0 == trampoline_va / 4096,
            final(self).areas@.last().vpn_range.end.0 == trampoline_va / 4096 + 1,
            final(self).areas@.last().map_type == MapType::Framed,
            final(self).areas@.last().data_frames@ == seq![trampoline_frame],
            final(self).areas@.last().start_va.0 == trampoline_va,
            final(self).areas@.last().map_perm@ == FLAG_R | FLAG_X,
            crate::page_table::tables_grow_for(old(mem), final(mem), old(self).page_table.root_ppn.0, trampoline_vpn(trampoline_va)),
            (leaves_ok(old(mem), old(self).page_table.root_ppn.0, old(allocator)@) && !old(allocator)@.is_free(trampoline_frame.0)
                && !in_tree(old(mem), old(self).page_table.root_ppn.0, trampoline_frame.0) && trampoline_frame.0 < 0x1000_0000_0000)
                ==> leaves_ok(final(mem), final(self).page_table.root_ppn.0, final(allocator)@),
    {
        let ghost root = self.page_table.root_ppn.0;
        let ghost m0 = *mem;
        let ghost a0 = allocator@;
        let vpn: VirtPageNum = VirtPageNum::from(trampoline_va);
        let flags = PTEFlags::R().union(PTEFlags::X());
        self.page_table.map(mem, allocator, vpn, trampoline_frame, flags);
        self.areas.push(MapArea::new_one_page(VirtAddr::from(trampoline_va), trampoline_frame, MapType::Framed, flags));
        proof {
            crate::page_table::lemma_alloc_ok_step(&m0, mem, root, a0, allocator@);
            if leaves_ok(&m0, root, a0) && !a0.is_free(trampoline_frame.0) && !in_tree(&m0, root, trampoline_frame.0) && trampoline_frame.0 < 0x1000_0000_0000 {
                assert forall|v: u64| #[trigger] walk(mem, root, v) is Some implies !in_tree(mem, root, pte_ppn(walk(mem, root, v)->0)) && !allocator@.is_free(
                    pte_ppn(walk(mem, root, v)->0),
                ) by {
                    let tv = trampoline_vpn(trampoline_va);
                    assert(walk(mem, root, v) == walk_after_map(&m0, root, tv, trampoline_frame.0, FLAG_R | FLAG_X, v));
                    if walk(&m0, root, v) is Some {
                        if vpn_sv39(v) == vpn_sv39(tv) {
                            law_walk_uses_sv39_bits(&m0, root, v, tv);
                        }
                        assert(walk(mem, root, v) == walk(&m0, root, v));
                        let q = pte_ppn(walk(&m0, root, v)->0);
                        assert(!in_tree(&m0, root, q) && !a0.is_free(q));
                        assert(!in_tree(mem, root, q));
                    } else {
                        assert(vpn_sv39(v) == vpn_sv39(tv) && walk(&m0, root, tv) is None);
                        law_pte_roundtrip(trampoline_frame.0, (FLAG_R | FLAG_X) | crate::pte::FLAG_V);
                        assert(pte_ppn(walk(mem, root, v)->0) == trampoline_frame.0);
                        assert(!in_tree(mem, root, trampoline_frame.0));
                    }
                }
            }
        }
    }

    /// Maps the trampoline frame at `va` (readable and executable) and keeps a one-page area
    /// for it.
    pub fn push_trampoline(&mut self, mem: &mut PhysMem, allocator: &mut FrameAllocator, frame: PhysPageNum, va: u64)
        requires
            space_ok(old(mem), old(self), old(allocator)@),
            old(allocator)@.aligned_count() >= crate::page_table::tables_needed(old(mem), old(self).page_table.root_ppn.0, trampoline_vpn(va)),
        ensures
            old(self).page_table.owned_frames().is_prefix_of(final(self).page_table.owned_frames()),
            final(self).page_table.root_ppn == old(self).page_table.root_ppn,
            space_ok(final(mem), final(self), final(allocator)@),
            alloc_shrinks(old(allocator)@, final(allocator)@),
            tree_extends(old(mem), final(mem), old(self).page_table.root_ppn.0, old(allocator)@, final(allocator)@),
            changed_only(old(mem), final(mem), old(self).page_table.root_ppn.0, old(allocator)@, final(allocator)@),
            forall|v: u64|
                #[trigger] walk(final(mem), final(self).page_table.root_ppn.0, v) == walk_after_map(
                    old(mem),
                    old(self).page_table.root_ppn.0,
                    trampoline_vpn(va),
                    frame.0,
                    FLAG_R | FLAG_X,
                    v,
                ),
            final(self).areas@ == old(self).areas@.push(final(self).areas@.last()),
            final(self).areas@.last().vpn_range.start.0 == va / 4096,
            final(self).areas@.last().vpn_range.end.0 == va / 4096 + 1,
            final(self).areas@.last().map_type == MapType::Framed,
            final(self).areas@.last().data_frames@ == seq![frame],
            final(self).areas@.last().start_va.0 == va,
            final(self).areas@.last().map_perm@ == FLAG_R | FLAG_X,
            crate::page_table::tables_grow_for(old(mem), final(mem), old(self).page_table.root_ppn.0, trampoline_vpn(va)),
    {
        self.map_trampoline(mem, allocator, frame, va);
    }

    /// Maps into this address space the trampoline frame that `kernel_space` maps at
    /// `TRAMPOLINE`.
    pub fn map_trampoline_global(&mut self, kernel_space: &MemorySet, mem: &mut PhysMem, allocator: &mut FrameAllocator)
        requires
            space_ok(old(mem), old(self), old(allocator)@),
            walk(old(mem), kernel_space.page_table.root_ppn.0, trampoline_vpn(TRAMPOLINE)) is Some,
            old(allocator)@.aligned_count() >= crate::page_table::tables_needed(old(mem), old(self).page_table.root_ppn.0, trampoline_vpn(TRAMPOLINE)),
        ensures
            old(self).page_table.owned_frames().is_prefix_of(final(self).page_table.owned_frames()),
            final(self).page_table.root_ppn == old(self).page_table.root_ppn,
            space_ok(final(mem), final(self), final(allocator)@),
            alloc_shrinks(old(allocator)@, final(allocator)@),
            tree_extends(old(mem), final(mem), old(self).page_table.root_ppn.0, old(allocator)@, final(allocator)@),
            changed_only(old(mem), final(mem), old(self).page_table.root_ppn.0, old(allocator)@, final(allocator)@),
            final(allocator)@.aligned_count() == old(allocator)@.aligned_count() - crate::page_table::tables_needed(
                old(mem),
                old(self).page_table.root_ppn.0,
                trampoline_vpn(TRAMPOLINE),
            ),
            forall|v: u64|
                #[trigger] walk(final(mem), final(self).page_table.root_ppn.0, v) == walk_after_map(
                    old(mem),
                    old(self).page_table.root_ppn.0,
                    trampoline_vpn(TRAMPOLINE),
                    pte_ppn(walk(old(mem), kernel_space.page_table.root_ppn.0, trampoline_vpn(TRAMPOLINE))->0),
                    FLAG_R | FLAG_X,
                    v,
                ),
            final(self).areas@ == old(self).areas@.push(final(self).areas@.last()),
            final(self).areas@.last().vpn_range.start.0 == TRAMPOLINE / 4096,
            final(self).areas@.last().vpn_range.end.0 == TRAMPOLINE / 4096 + 1,
            final(self).areas@.last().map_type == MapType::Framed,
            (leaves_ok(old(mem), old(self).page_table.root_ppn.0, old(allocator)@)
                && !old(allocator)@.is_free(pte_ppn(walk(old(mem), kernel_space.page_table.root_ppn.0, trampoline_vpn(TRAMPOLINE))->0))
                && !in_tree(old(mem), old(self).page_table.root_ppn.0, pte_ppn(walk(old(mem), kernel_space.page_table.root_ppn.0, trampoline_vpn(TRAMPOLINE))->0)))
                ==> leaves_ok(final(mem), final(self).page_table.root_ppn.0, final(allocator)@),
    {
        let trampoline_frame = kernel_space.translate(mem, VirtPageNum::from(TRAMPOLINE)).unwrap();
        proof {
            let b = walk(mem, kernel_space.page_table.root_ppn.0, trampoline_vpn(TRAMPOLINE))->0.bits;
            crate::pte::lemma_pte_ppn_bound(b);
        }
        self.map_trampoline(mem, allocator, trampoline_frame, TRAMPOLINE);
    }

    /// Maps a framed area covering `[start_va, end_va)` with `permission`.
    pub fn insert_framed_area(&mut self, mem: &mut PhysMem, allocator: &mut FrameAllocator, start_va: VirtAddr, end_va: VirtAddr, permission: PTEFlags)
        requires
            space_ok(old(mem), old(self), old(allocator)@),
            end_va.0 + 4096 <= u64::MAX,
            crate::address::ceil_pages(end_va.0 as int) - start_va.0 / 4096 <= 0x800_0000,
            old(allocator)@.aligned_count() >= map_budget(
                true,
                (start_va.0 / 4096) as u64,
                crate::address::ceil_pages(end_va.0 as int) - start_va.0 / 4096,
            ),
        ensures
            final(self).page_table.root_ppn == old(self).page_table.root_ppn,
            space_ok(final(mem), final(self), final(allocator)@),
            alloc_shrinks(old(allocator)@, final(allocator)@),
            tree_extends(old(mem), final(mem), old(self).page_table.root_ppn.0, old(allocator)@, final(allocator)@),
            changed_only(old(mem), final(mem), old(self).page_table.root_ppn.0, old(allocator)@, final(allocator)@),
            final(self).areas@.len() == old(self).areas@.len() + 1,
            old(self).areas@.is_prefix_of(final(self).areas@),
            final(self).areas@.last().vpn_range.start.0 == start_va.0 / 4096,
            final(self).areas@.last().vpn_range.end.0 == crate::address::ceil_pages(end_va.0 as int),
            final(self).areas@.last().map_type == MapType::Framed,
            final(self).areas@.last().map_perm == permission,
            forall|k: int|
                0 <= k < final(self).areas@.last().vpn_range.len() ==> #[trigger] walk(
                    final(mem),
                    final(self).page_table.root_ppn.0,
                    (start_va.0 / 4096 + k) as u64,
                ) == mapped_walk(
                    old(mem),
                    old(self).page_table.root_ppn.0,
                    (start_va.0 / 4096 + k) as u64,
                    final(self).areas@.last().data_frames@[k].0,
                    permission@,
                ),
            forall|v: u64|
                outside_slots((start_va.0 / 4096) as u64, final(self).areas@.last().vpn_range.len() as int, v) ==> #[trigger] walk(
                    final(mem),
                    final(self).page_table.root_ppn.0,
                    v,
                ) == walk(old(mem), old(self).page_table.root_ppn.0, v),
            leaves_ok(old(mem), old(self).page_table.root_ppn.0, old(allocator)@) ==> leaves_ok(
                final(mem),
                final(self).page_table.root_ppn.0,
                final(allocator)@,
            ),
    {
        self.push(mem, allocator, MapArea::new(start_va, end_va, MapType::Framed, permission), None);
    }

    /// Unmaps and drops the first area that starts at `start_vpn`, if there is one.
    pub fn remove_area_with_start_vpn(&mut self, mem: &mut PhysMem, allocator: &mut FrameAllocator, start_vpn: VirtPageNum)
        requires
            tree_wf(old(mem), old(self).page_table.root_ppn.0),
            forall|i: int|
                first_area_at(old(self).areas@, start_vpn, i) ==> {
                    &&& (#[trigger] old(self).areas@[i]).vpn_range.len() <= 0x800_0000
                    &&& forall|k: int|
                        0 <= k < old(self).areas@[i].vpn_range.len() ==> #[trigger] walk(
                            old(mem),
                            old(self).page_table.root_ppn.0,
                            (start_vpn.0 + k) as u64,
                        ) is Some
                },
        ensures
            final(self).page_table.root_ppn == old(self).page_table.root_ppn,
            final(allocator)@ == old(allocator)@,
            tree_wf(final(mem), final(self).page_table.root_ppn.0),
            forall|p: u64| #[trigger] in_tree(final(mem), final(self).page_table.root_ppn.0, p) == in_tree(old(mem), old(self).page_table.root_ppn.0, p),
            forall|p: u64| !in_tree(old(mem), old(self).page_table.root_ppn.0, p) ==> #[trigger] final(mem).frame(p) == old(mem).frame(p),
            (forall|i: int| !first_area_at(old(self).areas@, start_vpn, i)) ==> {
                &&& final(self).areas@ == old(self).areas@
                &&& *final(mem) == *old(mem)
            },
            forall|i: int|
                first_area_at(old(self).areas@, start_vpn, i) ==> {
                    &&& final(self).areas@ == old(self).areas@.remove(i)
                    &&& forall|k: int|
                        0 <= k < (#[trigger] old(self).areas@[i]).vpn_range.len() ==> #[trigger] walk(
                            final(mem),
                            final(self).page_table.root_ppn.0,
                            (start_vpn.0 + k) as u64,
                        ) is None
                    &&& forall|v: u64|
                        outside_slots(start_vpn.0, old(self).areas@[i].vpn_range.len() as int, v) ==> #[trigger] walk(
                            final(mem),
                            final(self).page_table.root_ppn.0,
                            v,
                        ) == walk(old(mem), old(self).page_table.root_ppn.0, v)
                },
    {
        let mut idx: usize = 0;
        while idx < self.areas.len() && self.areas[idx].vpn_range.get_start() != start_vpn
            invariant
                idx <= self.areas@.len(),
                self.areas@ == old(self).areas@,
                forall|j: int| 0 <= j < idx ==> (#[trigger] self.areas@[j]).vpn_range.start != start_vpn,
            decreases self.areas@.len() - idx,
        {
            idx = idx + 1;
        }
        if idx < self.areas.len() {
            proof {
                assert(first_area_at(old(self).areas@, start_vpn, idx as int));
            }
            let mut area = self.areas.remove(idx);
            area.unmap(&mut self.page_table, mem, allocator);
            proof {
                assert forall|i: int| first_area_at(old(self).areas@, start_vpn, i) implies i == idx by {
                    if i < idx {
                        assert(old(self).areas@[i].vpn_range.start != start_vpn);
                    } else if i > idx {
                        assert(old(self).areas@[idx as int].vpn_range.start != start_vpn);
                    }
                }
            }
        } else {
            proof {
                assert forall|i: int| !first_area_at(old(self).areas@, start_vpn, i) by {
                    if 0 <= i < old(self).areas@.len() && old(self).areas@[i].vpn_range.start == start_vpn {
                        assert(self.areas@[i].vpn_range.start != start_vpn);
                    }
                }
            }
        }
    }
}

/// `after` is `before` with one more area: the one-page area that keeps the trampoline frame
/// `frame` at `va`, as `map_trampoline` and `push_trampoline` leave it.
pub open spec fn trampoline_pushed(before: Seq<MapArea>, after: Seq<MapArea>, frame: u64, va: u64) -> bool {
    &&& after == before.push(after.last())
    &&& after.last().vpn_range.start.0 == va / 4096
    &&& after.last().vpn_range.end.0 == va / 4096 + 1
    &&& after.last().map_type == MapType::Framed
    &&& after.last().data_frames@ == seq![PhysPageNum(frame)]
    &&& after.last().start_va.0 == va
    &&& after.last().map_perm@ == FLAG_R | FLAG_X
}

/// `push_trampoline` does what `map_trampoline` does: two address spaces with the same
/// translations and the same areas, the one given to `map_trampoline` and the other to
/// `push_trampoline` with the same frame and address, again have the same translations, and
/// the same areas but for the new ones, which agree in every field.
pub proof fn law_push_trampoline_is_map_trampoline(
    ma0: &PhysMem,
    ma1: &PhysMem,
    root_a: u64,
    areas_a0: Seq<MapArea>,
    areas_a1: Seq<MapArea>,
    mb0: &PhysMem,
    mb1: &PhysMem,
    root_b: u64,
    areas_b0: Seq<MapArea>,
    areas_b1: Seq<MapArea>,
    frame: u64,
    va: u64,
)
    requires
        forall|v: u64| #[trigger] walk(ma0, root_a, v) == walk(mb0, root_b, v),
        areas_a0 == areas_b0,
        forall|v: u64|
            #[trigger] walk(ma1, root_a, v) == walk_after_map(ma0, root_a, trampoline_vpn(va), frame, FLAG_R | FLAG_X, v),
        trampoline_pushed(areas_a0, areas_a1, frame, va),
        forall|v: u64|
            #[trigger] walk(mb1, root_b, v) == walk_after_map(mb0, root_b, trampoline_vpn(va), frame, FLAG_R | FLAG_X, v),
        trampoline_pushed(areas_b0, areas_b1, frame, va),
    ensures
        forall|v: u64| #[trigger] walk(ma1, root_a, v) == walk(mb1, root_b, v),
        areas_a1.len() == areas_b1.len(),
        forall|i: int| 0 <= i < areas_a0.len() ==> #[trigger] areas_a1[i] == areas_b1[i],
        areas_a1.last().vpn_range == areas_b1.last().vpn_range,
        areas_a1.last().start_va == areas_b1.last().start_va,
        areas_a1.last().map_type == areas_b1.last().map_type,
        areas_a1.last().map_perm@ == areas_b1.last().map_perm@,
        areas_a1.last().data_frames@ == areas_b1.last().data_frames@,
{
    assert forall|v: u64| #[trigger] walk(ma1, root_a, v) == walk(mb1, root_b, v) by {
        assert(walk(ma0, root_a, trampoline_vpn(va)) == walk(mb0, root_b, trampoline_vpn(va)));
        assert(walk(ma0, root_a, v) == walk(mb0, root_b, v));
    }
    assert forall|i: int| 0 <= i < areas_a0.len() implies #[trigger] areas_a1[i] == areas_b1[i] by {
        assert(areas_a1[i] == areas_a0[i]);
        assert(areas_b1[i] == areas_b0[i]);
    }
}

} // verus!
