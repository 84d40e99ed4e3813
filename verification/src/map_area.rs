//! Map areas: ranges of virtual pages mapped in one way with one set of permissions.
use vstd::prelude::*;

use crate::address::{vpn_index0, vpn_index1, vpn_sv39, PhysAddr, PhysPageNum, VirtAddr, VirtPageNum, ceil_pages};
use crate::frame::{lemma_alloc_free_set, FrameAllocator};
use crate::page_table::{
    v0, v1, alloc_ok_for, alloc_shrinks, changed_only, in_tree, lemma_alloc_ok_step, lemma_compose_steps,
    lemma_distinct_slots, law_walk_uses_sv39_bits, mapped_pte, translate_va_spec, tree_extends,
    tree_wf, walk, walk_after_map, PageTable,
};
use crate::phys_mem::PhysMem;
use crate::pte::{PTEFlags, PageTableEntry};
use crate::vpn_range::VpnRange;

verus! {

/// How the pages of an area are backed.
#[derive(Clone, Copy, PartialEq, Eq, Structural, Debug)]
pub enum MapType {
    /// Each page maps to the frame with the same number.
    Identical,
    /// Each page maps to a frame allocated for it.
    Framed,
    /// Every page maps to the given frame.
    Fixed(PhysPageNum),
}

/// A range of virtual pages mapped in one way, with the frames allocated for it.
pub struct MapArea {
    pub vpn_range: VpnRange,
    /// The exact start address, which need not be page-aligned.
    pub start_va: VirtAddr,
    pub map_type: MapType,
    pub map_perm: PTEFlags,
    pub data_frames: Vec<PhysPageNum>,
}

/// The frame that page `start + k` of an area maps to, where `frames[base..]` are the frames
/// allocated while mapping it.
pub open spec fn area_ppn(ty: MapType, frames: Seq<PhysPageNum>, base: int, start: u64, k: int) -> u64 {
    match ty {
        MapType::Identical => (start + k) as u64,
        MapType::Framed => frames[base + k].0,
        MapType::Fixed(p) => p.0,
    }
}

/// Whether `v` uses none of the slots of the pages `[start, start + n)`.
pub open spec fn outside_slots(start: u64, n: int, v: u64) -> bool {
    forall|k: int| 0 <= k < n ==> vpn_sv39(v) != #[trigger] vpn_sv39((start + k) as u64)
}

/// The walk of page `start + k` after mapping it.
pub open spec fn mapped_walk(m: &PhysMem, root: u64, vpn: u64, ppn: u64, perm: u8) -> Option<PageTableEntry> {
    if walk(m, root, vpn) is None {
        Some(mapped_pte(ppn, perm))
    } else {
        walk(m, root, vpn)
    }
}

/// The physical address that byte `k` of data copied to `start` goes to.
pub open spec fn copy_target(m: &PhysMem, root: u64, start: u64, k: int) -> u64 {
    (translate_va_spec(m, root, (start + k) as u64)->0).0
}

/// Whether byte `k` of data copied to `start` lands on a mapped page.
pub open spec fn copy_mapped(m: &PhysMem, root: u64, start: u64, k: int) -> bool {
    translate_va_spec(m, root, (start + k) as u64) is Some
}

/// Only tables on the way to the pages `[start, start + n)` became valid between `m1` and
/// `m2`.
pub open spec fn tables_grow_in(m1: &PhysMem, m2: &PhysMem, root: u64, start: u64, n: int) -> bool {
    &&& forall|a: u64|
        a < 512 && #[trigger] v0(m2, root, a) ==> v0(m1, root, a) || exists|k: int|
            0 <= k < n && #[trigger] vpn_index0((start + k) as u64) == a
    &&& forall|a: u64, b: u64|
        a < 512 && b < 512 && #[trigger] v1(m2, root, a, b) ==> v1(m1, root, a, b) || exists|k: int|
            #![trigger vpn_index0((start + k) as u64), vpn_index1((start + k) as u64)]
            0 <= k < n && vpn_index0((start + k) as u64) == a && vpn_index1((start + k) as u64) == b
}

/// The number of pages among the `n` pages from `start` that begin a level-0 table: the
/// first one, and each one whose number is a multiple of 512.
pub open spec fn table_blocks(start: u64, n: int) -> int
    decreases n,
{
    if n <= 0 {
        0
    } else {
        table_blocks(start, n - 1) + if n - 1 == 0 || (start + n - 1) % 512 == 0 { 1int } else { 0int }
    }
}

/// The 2 MiB-aligned frames that mapping the `n` pages from `start` may take: two tables for
/// each page that begins a level-0 table, and one frame per page for a framed area. It is a
/// bound that suffices, counted in untouched aligned frames, not the least need: a data page
/// may as well take a recycled frame, which it does not count.
pub open spec fn map_budget(framed: bool, start: u64, n: int) -> int {
    (if framed { n } else { 0 }) + 2 * table_blocks(start, n)
}

/// Mapping `n` pages takes at most three frames per page.
pub proof fn lemma_map_budget_le(framed: bool, start: u64, n: int)
    requires
        0 <= n,
    ensures
        0 <= map_budget(framed, start, n) <= 3 * n,
    decreases n,
{
    if n > 0 {
        lemma_map_budget_le(framed, start, n - 1);
    }
}

proof fn lemma_table_blocks_mono(start: u64, i: int, n: int)
    requires
        0 <= i <= n,
    ensures
        0 <= table_blocks(start, i) <= table_blocks(start, n),
    decreases n,
{
    if i < n {
        lemma_table_blocks_mono(start, i, n - 1);
    } else if n > 0 {
        lemma_table_blocks_mono(start, n - 1, n - 1);
    }
}

proof fn lemma_map_budget_step(framed: bool, start: u64, i: int, n: int)
    requires
        0 <= i < n,
    ensures
        map_budget(framed, start, i + 1) == map_budget(framed, start, i) + (if framed { 1int } else { 0int }) + (
        if i == 0 || (start + i) % 512 == 0 { 2int } else { 0int }),
        map_budget(framed, start, i + 1) <= map_budget(framed, start, n),
        0 <= map_budget(framed, start, i),
{
    lemma_table_blocks_mono(start, i + 1, n);
    lemma_table_blocks_mono(start, i, i + 1);
}

/// A page whose number is not a multiple of 512 shares its level-1 and level-0 tables with
/// the page before it.
proof fn lemma_same_table(prev: u64)
    requires
        prev < u64::MAX,
        (prev + 1) % 512 != 0,
    ensures
        vpn_index0((prev + 1) as u64) == vpn_index0(prev),
        vpn_index1((prev + 1) as u64) == vpn_index1(prev),
{
    let p = (prev + 1) as u64;
    assert(p & 0x1ffu64 == p % 512 && (p & 0x1ffu64 != 0 ==> (((p - 1) as u64) >> 9u64) == (p >> 9u64)) && ((((p - 1) as u64)
        >> 9u64) == (p >> 9u64) ==> (((p - 1) as u64) >> 18u64) == (p >> 18u64))) by (bit_vector);
}

impl MapArea {
    /// The area covering `[start_va, end_va)`, rounded out to whole pages.
    pub fn new(start_va: VirtAddr, end_va: VirtAddr, map_type: MapType, flags: PTEFlags) -> (r: MapArea)
        requires
            end_va.0 + 4095 <= u64::MAX,
        ensures
            r.vpn_range.start.0 == start_va.0 / 4096,
            r.vpn_range.end.0 == ceil_pages(end_va.0 as int),
            r.start_va == start_va,
            r.map_type == map_type,
            r.map_perm == flags,
            r.data_frames@ == Seq::<PhysPageNum>::empty(),
    {
        MapArea {
            vpn_range: VpnRange::new(start_va.floor(), end_va.ceil()),
            start_va,
            map_type,
            map_perm: flags,
            data_frames: Vec::new(),
        }
    }

    /// The one-page area holding `va`, backed by `frame`.
    pub fn new_one_page(va: VirtAddr, frame: PhysPageNum, map_type: MapType, flags: PTEFlags) -> (r: MapArea)
        ensures
            r.vpn_range.start.0 == va.0 / 4096,
            r.vpn_range.end.0 == va.0 / 4096 + 1,
            r.start_va == va,
            r.map_type == map_type,
            r.map_perm == flags,
            r.data_frames@ == seq![frame],
    {
        let start = va.floor();
        let end = VirtPageNum(start.0 + 1);
        let mut data_frames = Vec::new();
        data_frames.push(frame);
        proof {
            assert(data_frames@ =~= seq![frame]);
        }
        MapArea { vpn_range: VpnRange::new(start, end), start_va: va, map_type, map_perm: flags, data_frames }
    }

    /// An area like `another`, without frames; a fixed mapping becomes framed, since a fixed
    /// frame cannot be shared by two address spaces.
    pub fn from_another(another: &MapArea) -> (r: MapArea)
        ensures
            r.vpn_range == another.vpn_range,
            r.start_va == another.start_va,
            r.map_perm == another.map_perm,
            r.map_type == (match another.map_type {
                MapType::Fixed(_) => MapType::Framed,
                other => other,
            }),
            r.data_frames@ == Seq::<PhysPageNum>::empty(),
    {
        MapArea {
            vpn_range: VpnRange::new(another.vpn_range.get_start(), another.vpn_range.get_end()),
            start_va: another.start_va,
            data_frames: Vec::new(),
            map_type: match another.map_type {
                MapType::Fixed(_) => MapType::Framed,
                other => other,
            },
            map_perm: another.map_perm,
        }
    }

    /// Maps page `vpn` of the area.
    fn map_one(&mut self, page_table: &mut PageTable, mem: &mut PhysMem, allocator: &mut FrameAllocator, vpn: VirtPageNum)
        requires
            tree_wf(old(mem), old(page_table).root_ppn.0),
            alloc_ok_for(old(mem), old(page_table).root_ppn.0, old(allocator)@),
            old(allocator)@.aligned_count() >= crate::page_table::tables_needed(old(mem), old(page_table).root_ppn.0, vpn.0) + (
            if old(self).map_type == MapType::Framed { 1int } else { 0int }),
        ensures
            final(self).vpn_range == old(self).vpn_range,
            final(self).start_va == old(self).start_va,
            final(self).map_type == old(self).map_type,
            final(self).map_perm == old(self).map_perm,
            final(page_table).root_ppn == old(page_table).root_ppn,
            tree_wf(final(mem), final(page_table).root_ppn.0),
            alloc_ok_for(final(mem), final(page_table).root_ppn.0, final(allocator)@),
            alloc_shrinks(old(allocator)@, final(allocator)@),
            tree_extends(old(mem), final(mem), old(page_table).root_ppn.0, old(allocator)@, final(allocator)@),
            changed_only(old(mem), final(mem), old(page_table).root_ppn.0, old(allocator)@, final(allocator)@),
            final(allocator)@.aligned_count() >= old(allocator)@.aligned_count() - crate::page_table::tables_needed(
                old(mem),
                old(page_table).root_ppn.0,
                vpn.0,
            ) - (if old(self).map_type == MapType::Framed { 1int } else { 0int }),
            crate::page_table::tables_grow_for(old(mem), final(mem), old(page_table).root_ppn.0, vpn.0),
            old(page_table).owned_frames().is_prefix_of(final(page_table).owned_frames()),
            old(self).map_type != MapType::Framed ==> final(self).data_frames@ == old(self).data_frames@,
            old(self).map_type == MapType::Framed ==> {
                let f = final(self).data_frames@.last().0;
                &&& final(self).data_frames@ == old(self).data_frames@.push(PhysPageNum(f))
                &&& old(allocator)@.is_free(f)
                &&& !final(allocator)@.is_free(f)
                &&& !in_tree(final(mem), final(page_table).root_ppn.0, f)
            },
            forall|v: u64|
                #[trigger] walk(final(mem), final(page_table).root_ppn.0, v) == walk_after_map(
                    old(mem),
                    old(page_table).root_ppn.0,
                    vpn.0,
                    area_ppn(old(self).map_type, final(self).data_frames@, old(self).data_frames@.len() as int, vpn.0, 0),
                    old(self).map_perm@,
                    v,
                ),
    {
        let ghost root = page_table.root_ppn.0;
        let ghost m0 = *mem;
        let ghost a0 = allocator@;
        let ppn: PhysPageNum = match self.map_type {
            MapType::Identical => PhysPageNum(vpn.0),
            MapType::Framed => {
                proof {
                    lemma_alloc_free_set(allocator@);
                }
                let frame = crate::frame::frame_alloc(allocator).unwrap();
                self.data_frames.push(frame);
                proof {
                    lemma_alloc_ok_step(&m0, mem, root, a0, allocator@);
                }
                frame
            },
            MapType::Fixed(ppn) => ppn,
        };
        let ghost a1 = allocator@;
        proof {
            assert(alloc_ok_for(mem, root, a1));
            assert(a1.aligned_count() >= crate::page_table::tables_needed(&m0, root, vpn.0));
            assert(changed_only(&m0, mem, root, a0, a1));
            assert(tree_extends(&m0, mem, root, a0, a1));
        }
        page_table.map(mem, allocator, vpn, ppn, self.map_perm);
        proof {
            lemma_compose_steps(&m0, &m0, mem, root, a0, a1, allocator@);
            if self.map_type == MapType::Framed {
                let f = self.data_frames@.last().0;
                assert(!in_tree(&m0, root, f));
                assert(!in_tree(mem, root, f));
            }
        }
    }

    /// Maps every page of the area; pages already mapped are left as they are.
    pub fn map(&mut self, page_table: &mut PageTable, mem: &mut PhysMem, allocator: &mut FrameAllocator)
        requires
            tree_wf(old(mem), old(page_table).root_ppn.0),
            alloc_ok_for(old(mem), old(page_table).root_ppn.0, old(allocator)@),
            old(self).vpn_range.len() <= 0x800_0000,
            old(allocator)@.aligned_count() >= map_budget(
                old(self).map_type == MapType::Framed,
                old(self).vpn_range.start.0,
                old(self).vpn_range.len() as int,
            ),
        ensures
            final(self).vpn_range == old(self).vpn_range,
            final(self).start_va == old(self).start_va,
            final(self).map_type == old(self).map_type,
            final(self).map_perm == old(self).map_perm,
            final(page_table).root_ppn == old(page_table).root_ppn,
            tree_wf(final(mem), final(page_table).root_ppn.0),
            alloc_ok_for(final(mem), final(page_table).root_ppn.0, final(allocator)@),
            alloc_shrinks(old(allocator)@, final(allocator)@),
            tree_extends(old(mem), final(mem), old(page_table).root_ppn.0, old(allocator)@, final(allocator)@),
            changed_only(old(mem), final(mem), old(page_table).root_ppn.0, old(allocator)@, final(allocator)@),
            final(allocator)@.aligned_count() >= old(allocator)@.aligned_count() - map_budget(
                old(self).map_type == MapType::Framed,
                old(self).vpn_range.start.0,
                old(self).vpn_range.len() as int,
            ),
            tables_grow_in(old(mem), final(mem), old(page_table).root_ppn.0, old(self).vpn_range.start.0, old(self).vpn_range.len() as int),
            old(page_table).owned_frames().is_prefix_of(final(page_table).owned_frames()),
            old(self).map_type != MapType::Framed ==> final(self).data_frames@ == old(self).data_frames@,
            old(self).map_type == MapType::Framed ==> {
                &&& final(self).data_frames@.len() == old(self).data_frames@.len() + old(self).vpn_range.len()
                &&& old(self).data_frames@.is_prefix_of(final(self).data_frames@)
                &&& forall|i: int| old(self).data_frames@.len() <= i < final(self).data_frames@.len() ==> {
                    &&& old(allocator)@.is_free(#[trigger] final(self).data_frames@[i].0)
                    &&& !final(allocator)@.is_free(final(self).data_frames@[i].0)
                    &&& !in_tree(final(mem), final(page_table).root_ppn.0, final(self).data_frames@[i].0)
                }
                &&& forall|i: int, j: int|
                    old(self).data_frames@.len() <= i < j < final(self).data_frames@.len() ==> #[trigger] final(self).data_frames@[i] != #[trigger] final(self).data_frames@[j]
            },
            forall|k: int|
                0 <= k < old(self).vpn_range.len() ==> #[trigger] walk(
                    final(mem),
                    final(page_table).root_ppn.0,
                    (old(self).vpn_range.start.0 + k) as u64,
                ) == mapped_walk(
                    old(mem),
                    old(page_table).root_ppn.0,
                    (old(self).vpn_range.start.0 + k) as u64,
                    area_ppn(old(self).map_type, final(self).data_frames@, old(self).data_frames@.len() as int, old(self).vpn_range.start.0, k),
                    old(self).map_perm@,
                ),
            forall|v: u64|
                outside_slots(old(self).vpn_range.start.0, old(self).vpn_range.len() as int, v) ==> #[trigger] walk(
                    final(mem),
                    final(page_table).root_ppn.0,
                    v,
                ) == walk(old(mem), old(page_table).root_ppn.0, v),
    {
        let vpns = self.vpn_range.iter();
        let ghost root = page_table.root_ppn.0;
        let ghost m0 = *mem;
        let ghost a0 = allocator@;
        let ghost start = self.vpn_range.start.0;
        let ghost n = self.vpn_range.len();
        let ghost base = self.data_frames@.len() as int;
        let ghost ty = self.map_type;
        let ghost perm = self.map_perm@;
        let ghost old_frames = self.data_frames@;
        let ghost pt_frames = page_table.owned_frames();
        let mut i: usize = 0;
        while i < vpns.len()
            invariant
                vpns@ == crate::vpn_range::vpn_seq(start, self.vpn_range.end.0),
                vpns@.len() == n,
                n <= 0x800_0000,
                start == self.vpn_range.start.0,
                start == old(self).vpn_range.start.0,
                n == old(self).vpn_range.len(),
                0 <= i <= n,
                self.vpn_range == old(self).vpn_range,
                self.start_va == old(self).start_va,
                self.map_type == ty,
                ty == old(self).map_type,
                self.map_perm == old(self).map_perm,
                perm == self.map_perm@,
                base == old(self).data_frames@.len(),
                old_frames == old(self).data_frames@,
                pt_frames == old(page_table).owned_frames(),
                page_table.root_ppn.0 == root,
                root == old(page_table).root_ppn.0,
                m0 == *old(mem),
                a0 == old(allocator)@,
                tree_wf(mem, root),
                alloc_ok_for(mem, root, allocator@),
                alloc_shrinks(a0, allocator@),
                tree_extends(&m0, mem, root, a0, allocator@),
                changed_only(&m0, mem, root, a0, allocator@),
                allocator@.aligned_count() >= a0.aligned_count() - map_budget(ty == MapType::Framed, start, i as int),
                a0.aligned_count() >= map_budget(ty == MapType::Framed, start, n as int),
                start + n <= u64::MAX,
                tables_grow_in(&m0, mem, root, start, i as int),
                pt_frames.is_prefix_of(page_table.owned_frames()),
                ty != MapType::Framed ==> self.data_frames@ == old_frames,
                ty == MapType::Framed ==> {
                    &&& self.data_frames@.len() == base + i
                    &&& old_frames.is_prefix_of(self.data_frames@)
                    &&& forall|q: int| base <= q < self.data_frames@.len() ==> {
                        &&& a0.is_free(#[trigger] self.data_frames@[q].0)
                        &&& !allocator@.is_free(self.data_frames@[q].0)
                        &&& !in_tree(mem, root, self.data_frames@[q].0)
                    }
                    &&& forall|q: int, r: int|
                        base <= q < r < self.data_frames@.len() ==> #[trigger] self.data_frames@[q] != #[trigger] self.data_frames@[r]
                },
                forall|k: int|
                    0 <= k < i ==> #[trigger] walk(mem, root, (start + k) as u64) == mapped_walk(
                        &m0,
                        root,
                        (start + k) as u64,
                        area_ppn(ty, self.data_frames@, base, start, k),
                        perm,
                    ),
                forall|v: u64| outside_slots(start, i as int, v) ==> #[trigger] walk(mem, root, v) == walk(&m0, root, v),
            decreases n - i,
        {
            let vpn = vpns[i];
            let ghost m1 = *mem;
            let ghost a1 = allocator@;
            let ghost f1 = self.data_frames@;
            proof {
                assert(vpn.0 == start + i);
                lemma_map_budget_step(ty == MapType::Framed, start, i as int, n as int);
                if i > 0 && (start + i) % 512 != 0 {
                    let prev = (start + (i - 1)) as u64;
                    assert(walk(mem, root, prev) == mapped_walk(&m0, root, prev, area_ppn(ty, self.data_frames@, base, start, i - 1), perm));
                    assert(walk(mem, root, prev) is Some);
                    lemma_same_table(prev);
                }
                assert(outside_slots(start, i as int, vpn.0)) by {
                    assert forall|k: int| 0 <= k < i implies vpn_sv39(vpn.0) != #[trigger] vpn_sv39((start + k) as u64) by {
                        lemma_distinct_slots(start, k as u64, i as u64);
                    }
                }
            }
            self.map_one(page_table, mem, allocator, vpn);
            proof {
                assert forall|a: u64| a < 512 && #[trigger] v0(mem, root, a) implies v0(&m0, root, a) || exists|k: int|
                    0 <= k < i + 1 && #[trigger] vpn_index0((start + k) as u64) == a by {
                    if !v0(&m1, root, a) {
                        assert(vpn_index0((start + i) as u64) == a);
                    } else if !v0(&m0, root, a) {
                        let k = choose|k: int| 0 <= k < i && #[trigger] vpn_index0((start + k) as u64) == a;
                        assert(vpn_index0((start + k) as u64) == a);
                    }
                }
                assert forall|a: u64, b: u64| a < 512 && b < 512 && #[trigger] v1(mem, root, a, b) implies v1(&m0, root, a, b) || exists|k: int|
                    #![trigger vpn_index0((start + k) as u64), vpn_index1((start + k) as u64)]
                    0 <= k < i + 1 && vpn_index0((start + k) as u64) == a && vpn_index1((start + k) as u64) == b by {
                    if !v1(&m1, root, a, b) {
                        assert(vpn_index0((start + i) as u64) == a && vpn_index1((start + i) as u64) == b);
                    } else if !v1(&m0, root, a, b) {
                        let k = choose|k: int|
                            #![trigger vpn_index0((start + k) as u64), vpn_index1((start + k) as u64)]
                            0 <= k < i && vpn_index0((start + k) as u64) == a && vpn_index1((start + k) as u64) == b;
                        assert(vpn_index0((start + k) as u64) == a && vpn_index1((start + k) as u64) == b);
                    }
                }
                lemma_compose_steps(&m0, &m1, mem, root, a0, a1, allocator@);
                let ppn = area_ppn(ty, self.data_frames@, base + i, vpn.0, 0);
                assert(ppn == area_ppn(ty, self.data_frames@, base, start, i as int));
                if ty == MapType::Framed {
                    assert(self.data_frames@ == f1.push(self.data_frames@.last()));
                    assert forall|q: int| base <= q < self.data_frames@.len() implies {
                        &&& a0.is_free(#[trigger] self.data_frames@[q].0)
                        &&& !allocator@.is_free(self.data_frames@[q].0)
                        &&& !in_tree(mem, root, self.data_frames@[q].0)
                    } by {
                        if q < self.data_frames@.len() - 1 {
                            assert(self.data_frames@[q] == f1[q]);
                            assert(!in_tree(&m1, root, self.data_frames@[q].0));
                            assert(!a1.is_free(self.data_frames@[q].0));
                        }
                    }
                    assert forall|q: int, r: int|
                        base <= q < r < self.data_frames@.len() implies #[trigger] self.data_frames@[q] != #[trigger] self.data_frames@[r] by {
                        if r == self.data_frames@.len() - 1 {
                            assert(self.data_frames@[q] == f1[q]);
                            assert(!a1.is_free(f1[q].0));
                        } else {
                            assert(self.data_frames@[q] == f1[q]);
                            assert(self.data_frames@[r] == f1[r]);
                        }
                    }
                    assert(old_frames.is_prefix_of(self.data_frames@)) by {
                        assert forall|q: int| 0 <= q < old_frames.len() implies self.data_frames@[q] == old_frames[q] by {
                            assert(self.data_frames@[q] == f1[q]);
                        }
                    }
                }
                assert forall|k: int| 0 <= k < i + 1 implies #[trigger] walk(mem, root, (start + k) as u64) == mapped_walk(
                    &m0,
                    root,
                    (start + k) as u64,
                    area_ppn(ty, self.data_frames@, base, start, k),
                    perm,
                ) by {
                    if k < i {
                        lemma_distinct_slots(start, k as u64, i as u64);
                        if ty == MapType::Framed {
                            assert(self.data_frames@[base + k] == f1[base + k]);
                        }
                    }
                }
                assert forall|v: u64| outside_slots(start, i + 1, v) implies #[trigger] walk(mem, root, v) == walk(&m0, root, v) by {
                    assert(vpn_sv39(v) != vpn_sv39((start + i) as u64));
                    assert(outside_slots(start, i as int, v));
                }
                assert(pt_frames.is_prefix_of(page_table.owned_frames()));
            }
            i = i + 1;
        }
    }

    /// Removes the mapping of every page of the area; every page must be mapped.
    pub fn unmap(&mut self, page_table: &mut PageTable, mem: &mut PhysMem, allocator: &mut FrameAllocator)
        requires
            tree_wf(old(mem), old(page_table).root_ppn.0),
            old(self).vpn_range.len() <= 0x800_0000,
            forall|k: int|
                0 <= k < old(self).vpn_range.len() ==> #[trigger] walk(
                    old(mem),
                    old(page_table).root_ppn.0,
                    (old(self).vpn_range.start.0 + k) as u64,
                ) is Some,
        ensures
            *final(self) == *old(self),
            final(page_table).root_ppn == old(page_table).root_ppn,
            final(page_table).owned_frames() == old(page_table).owned_frames(),
            final(allocator)@ == old(allocator)@,
            tree_wf(final(mem), final(page_table).root_ppn.0),
            forall|p: u64| #[trigger] in_tree(final(mem), final(page_table).root_ppn.0, p) == in_tree(old(mem), old(page_table).root_ppn.0, p),
            forall|p: u64| !in_tree(old(mem), old(page_table).root_ppn.0, p) ==> #[trigger] final(mem).frame(p) == old(mem).frame(p),
            forall|k: int|
                0 <= k < old(self).vpn_range.len() ==> #[trigger] walk(
                    final(mem),
                    final(page_table).root_ppn.0,
                    (old(self).vpn_range.start.0 + k) as u64,
                ) is None,
            forall|v: u64|
                outside_slots(old(self).vpn_range.start.0, old(self).vpn_range.len() as int, v) ==> #[trigger] walk(
                    final(mem),
                    final(page_table).root_ppn.0,
                    v,
                ) == walk(old(mem), old(page_table).root_ppn.0, v),
    {
        let vpns = self.vpn_range.iter();
        let ghost root = page_table.root_ppn.0;
        let ghost m0 = *mem;
        let ghost start = self.vpn_range.start.0;
        let ghost n = self.vpn_range.len();
        let mut i: usize = 0;
        while i < vpns.len()
            invariant
                vpns@ == crate::vpn_range::vpn_seq(start, self.vpn_range.end.0),
                vpns@.len() == n,
                n <= 0x800_0000,
                start == self.vpn_range.start.0,
                n == self.vpn_range.len(),
                0 <= i <= n,
                *self == *old(self),
                page_table.root_ppn.0 == root,
                root == old(page_table).root_ppn.0,
                page_table.owned_frames() == old(page_table).owned_frames(),
                allocator@ == old(allocator)@,
                m0 == *old(mem),
                tree_wf(mem, root),
                forall|p: u64| #[trigger] in_tree(mem, root, p) == in_tree(&m0, root, p),
                forall|p: u64| !in_tree(&m0, root, p) ==> #[trigger] mem.frame(p) == m0.frame(p),
                forall|k: int| 0 <= k < n ==> #[trigger] walk(&m0, root, (start + k) as u64) is Some,
                forall|k: int| 0 <= k < i ==> #[trigger] walk(mem, root, (start + k) as u64) is None,
                forall|v: u64| outside_slots(start, i as int, v) ==> #[trigger] walk(mem, root, v) == walk(&m0, root, v),
            decreases n - i,
        {
            let vpn = vpns[i];
            let ghost m1 = *mem;
            proof {
                assert(vpn.0 == start + i);
                assert(outside_slots(start, i as int, vpn.0)) by {
                    assert forall|k: int| 0 <= k < i implies vpn_sv39(vpn.0) != #[trigger] vpn_sv39((start + k) as u64) by {
                        lemma_distinct_slots(start, k as u64, i as u64);
                    }
                }
                assert(walk(&m0, root, (start + i) as u64) is Some);
            }
            page_table.unmap(mem, allocator, vpn);
            proof {
                assert forall|p: u64| !in_tree(&m0, root, p) implies #[trigger] mem.frame(p) == m0.frame(p) by {
                    let t = crate::page_table::l0(&m1, root, crate::address::vpn_index0(vpn.0), crate::address::vpn_index1(vpn.0));
                    if p == t {
                        crate::address::lemma_vpn_indexes(vpn.0);
                        assert(crate::page_table::v1(&m1, root, crate::address::vpn_index0(vpn.0), crate::address::vpn_index1(vpn.0)));
                        assert(in_tree(&m1, root, t));
                    }
                }
                assert forall|k: int| 0 <= k < i + 1 implies #[trigger] walk(mem, root, (start + k) as u64) is None by {
                    if k < i {
                        lemma_distinct_slots(start, k as u64, i as u64);
                    }
                }
                assert forall|v: u64| outside_slots(start, i + 1, v) implies #[trigger] walk(mem, root, v) == walk(&m0, root, v) by {
                    assert(vpn_sv39(v) != vpn_sv39((start + i) as u64));
                    assert(outside_slots(start, i as int, v));
                }
            }
            i = i + 1;
        }
    }

    /// Copies `data` into the frames of the area, starting at its exact start address, one
    /// page-sized piece at a time (neighbouring pages need not have neighbouring frames).
    pub fn copy_data(&mut self, page_table: &PageTable, mem: &mut PhysMem, data: &[u8])
        requires
            old(self).map_type == MapType::Framed,
            old(self).start_va.0 + data@.len() <= u64::MAX,
            forall|k: int| 0 <= k < data@.len() ==> #[trigger] copy_mapped(old(mem), page_table.root_ppn.0, old(self).start_va.0, k),
            forall|k: int|
                0 <= k < data@.len() ==> !in_tree(
                    old(mem),
                    page_table.root_ppn.0,
                    #[trigger] copy_target(old(mem), page_table.root_ppn.0, old(self).start_va.0, k) / 4096,
                ),
        ensures
            *final(self) == *old(self),
            forall|a: u64|
                #[trigger] final(mem).byte(a) == copied_byte(
                    old(mem),
                    page_table.root_ppn.0,
                    old(self).start_va.0,
                    data@,
                    data@.len() as int,
                    a,
                ),
            forall|p: u64| #[trigger] in_tree(old(mem), page_table.root_ppn.0, p) ==> final(mem).frame(p) == old(mem).frame(p),
            forall|p: u64|
                (forall|k: int| 0 <= k < data@.len() ==> #[trigger] copy_target(old(mem), page_table.root_ppn.0, old(self).start_va.0, k) / 4096 != p)
                    ==> #[trigger] final(mem).frame(p) == old(mem).frame(p),
            forall|v: u64| #[trigger] walk(final(mem), page_table.root_ppn.0, v) == walk(old(mem), page_table.root_ppn.0, v),
    {
        let ghost root = page_table.root_ppn.0;
        let ghost m0 = *mem;
        let start_va_val = self.start_va.0;
        let len = data.len() as u64;
        let mut offset: u64 = 0;
        while offset < len
            invariant
                root == page_table.root_ppn.0,
                m0 == *old(mem),
                *self == *old(self),
                start_va_val == self.start_va.0,
                len == data@.len(),
                start_va_val + len <= u64::MAX,
                offset <= len,
                forall|k: int| 0 <= k < len ==> #[trigger] copy_mapped(&m0, root, start_va_val, k),
                forall|k: int| 0 <= k < len ==> !in_tree(&m0, root, #[trigger] copy_target(&m0, root, start_va_val, k) / 4096),
                forall|p: u64| #[trigger] in_tree(&m0, root, p) ==> mem.frame(p) == m0.frame(p),
                forall|a: u64| #[trigger] mem.byte(a) == copied_byte(&m0, root, start_va_val, data@, offset as int, a),
                forall|p: u64|
                    (forall|k: int| 0 <= k < offset ==> #[trigger] copy_target(&m0, root, start_va_val, k) / 4096 != p)
                        ==> #[trigger] mem.frame(p) == m0.frame(p),
            decreases len - offset,
        {
            let cur_va = VirtAddr(start_va_val + offset);
            let page_off = cur_va.page_offset();
            let room = 4096 - page_off;
            let rest = len - offset;
            let chunk_len = if room < rest { room } else { rest };
            proof {
                crate::page_table::lemma_agree_on_tree(&m0, mem, root);
                assert(copy_mapped(&m0, root, start_va_val, offset as int));
            }
            let pa = page_table.translate_va(mem, cur_va).unwrap();
            let ghost off0 = offset;
            let mut j: u64 = 0;
            while j < chunk_len
                invariant
                    root == page_table.root_ppn.0,
                    m0 == *old(mem),
                    len == data@.len(),
                    start_va_val + len <= u64::MAX,
                    offset == off0,
                    off0 + chunk_len <= len,
                    chunk_len <= 4096 - (start_va_val + off0) % 4096,
                    Some(pa) == translate_va_spec(&m0, root, (start_va_val + off0) as u64),
                    j <= chunk_len,
                    forall|k: int| 0 <= k < len ==> #[trigger] copy_mapped(&m0, root, start_va_val, k),
                    forall|k: int| 0 <= k < len ==> !in_tree(&m0, root, #[trigger] copy_target(&m0, root, start_va_val, k) / 4096),
                    forall|p: u64| #[trigger] in_tree(&m0, root, p) ==> mem.frame(p) == m0.frame(p),
                    forall|a: u64| #[trigger] mem.byte(a) == copied_byte(&m0, root, start_va_val, data@, off0 + j, a),
                    forall|p: u64|
                        (forall|k: int| 0 <= k < off0 + j ==> #[trigger] copy_target(&m0, root, start_va_val, k) / 4096 != p)
                            ==> #[trigger] mem.frame(p) == m0.frame(p),
                decreases chunk_len - j,
            {
                let ghost k = off0 + j;
                proof {
                    lemma_translate_in_page(&m0, root, (start_va_val + off0) as u64, j);
                    assert((start_va_val + off0 + j) as u64 == (start_va_val + k) as u64);
                    assert(copy_mapped(&m0, root, start_va_val, k));
                }
                let ghost m1 = *mem;
                mem.write_byte(PhysAddr(pa.0 + j), data[(offset + j) as usize]);
                proof {
                    let pak = copy_target(&m0, root, start_va_val, k);
                    assert(pak == pa.0 + j);
                    assert forall|p: u64| #[trigger] in_tree(&m0, root, p) implies mem.frame(p) == m0.frame(p) by {
                        assert(p != pak / 4096);
                    }
                    assert forall|a: u64| #[trigger] mem.byte(a) == copied_byte(&m0, root, start_va_val, data@, k + 1, a) by {
                        assert(m1.byte(a) == copied_byte(&m0, root, start_va_val, data@, k, a));
                    }
                    assert forall|p: u64|
                        (forall|q: int| 0 <= q < k + 1 ==> #[trigger] copy_target(&m0, root, start_va_val, q) / 4096 != p)
                        implies #[trigger] mem.frame(p) == m0.frame(p) by {
                        assert(copy_target(&m0, root, start_va_val, k) / 4096 != p);
                        assert(m1.frame(p) == m0.frame(p));
                    }
                }
                j = j + 1;
            }
            offset = offset + chunk_len;
        }
        proof {
            crate::page_table::lemma_agree_on_tree(&m0, mem, root);
        }
    }
}

/// The byte at physical address `a` after the first `n` bytes of `data` were copied to
/// virtual address `start`, one after the other (a later byte overwrites an earlier one that
/// landed on the same address).
pub open spec fn copied_byte(m: &PhysMem, root: u64, start: u64, data: Seq<u8>, n: int, a: u64) -> u8
    decreases n,
{
    if n <= 0 {
        m.byte(a)
    } else if copy_target(m, root, start, n - 1) == a {
        data[n - 1]
    } else {
        copied_byte(m, root, start, data, n - 1, a)
    }
}

/// Addresses inside one page translate to addresses inside one frame, in the same order.
proof fn lemma_translate_in_page(m: &PhysMem, root: u64, va: u64, j: u64)
    requires
        va % 4096 + j < 4096,
        translate_va_spec(m, root, va) is Some,
    ensures
        translate_va_spec(m, root, (va + j) as u64) is Some,
        (translate_va_spec(m, root, (va + j) as u64)->0).0 == (translate_va_spec(m, root, va)->0).0 + j,
{
    assert((va + j) / 4096 == va / 4096);
    assert((va + j) % 4096 == va % 4096 + j);
    let e = walk(m, root, va / 4096)->0;
    let b = e.bits;
    crate::pte::lemma_pte_ppn_bound(b);
}

/// Mapping an area whose pages were all unmapped and then unmapping it gives back the page
/// table as it was: every page translates as before. The walks are those that `map` and
/// `unmap` promise: `map` maps page `start + k` to frame `ppns[k]` and keeps every page
/// outside the area's slots, `unmap` clears the area's pages and keeps every page outside them.
pub proof fn law_area_unmap_undoes_map(
    m0: &PhysMem,
    m1: &PhysMem,
    m2: &PhysMem,
    root: u64,
    start: u64,
    n: int,
    ppns: Seq<u64>,
    perm: u8,
)
    requires
        forall|k: int| 0 <= k < n ==> #[trigger] walk(m0, root, (start + k) as u64) is None,
        forall|k: int|
            0 <= k < n ==> #[trigger] walk(m1, root, (start + k) as u64) == mapped_walk(m0, root, (start + k) as u64, ppns[k], perm),
        forall|v: u64| outside_slots(start, n, v) ==> #[trigger] walk(m1, root, v) == walk(m0, root, v),
        forall|k: int| 0 <= k < n ==> #[trigger] walk(m2, root, (start + k) as u64) is None,
        forall|v: u64| outside_slots(start, n, v) ==> #[trigger] walk(m2, root, v) == walk(m1, root, v),
    ensures
        forall|v: u64| #[trigger] walk(m2, root, v) == walk(m0, root, v),
{
    assert forall|v: u64| #[trigger] walk(m2, root, v) == walk(m0, root, v) by {
        if !outside_slots(start, n, v) {
            let k = choose|k: int| 0 <= k < n && vpn_sv39(v) == #[trigger] vpn_sv39((start + k) as u64);
            law_walk_uses_sv39_bits(m0, root, v, (start + k) as u64);
            law_walk_uses_sv39_bits(m2, root, v, (start + k) as u64);
        } else {
            assert(walk(m1, root, v) == walk(m0, root, v));
        }
    }
}

} // verus!
