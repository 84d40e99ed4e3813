//! Sv39 page tables kept in physical memory: three levels of 512 entries, walked from the
//! root with the three nine-bit indexes of a virtual page number.
use vstd::prelude::*;

use crate::address::{
    lemma_vpn_indexes, lemma_vpn_indexes_eq, vpn_index0, vpn_index1, vpn_index2, vpn_sv39,
    PhysAddr, PhysPageNum, VirtAddr, VirtPageNum,
};
use crate::frame::{lemma_alloc_free_set, lemma_pte_alloc_free_set, lemma_pte_alloc_none_free_set, FrameAllocState, FrameAllocator};
use crate::phys_mem::{zero_frame, PhysMem};
use crate::pte::{
    law_pte_roundtrip, lemma_zero_pte, pte_bits, pte_bits_flags, pte_bits_ppn, pte_bits_valid, PTEFlags,
    PageTableEntry, FLAG_V,
};

verus! {

// ---------------------------------------------------------------------------------------
// The walk and the shape of a table tree.
/// The bits of entry `idx` of the table in frame `table`.
pub open spec fn entry_at(mem: &PhysMem, table: u64, idx: u64) -> u64 {
    mem.word(table, idx as int)
}

/// Whether root entry `i` is valid.
pub open spec fn v0(mem: &PhysMem, root: u64, i: u64) -> bool {
    pte_bits_valid(entry_at(mem, root, i))
}

/// The frame that root entry `i` points to (a level-1 table when the entry is valid).
pub open spec fn l1(mem: &PhysMem, root: u64, i: u64) -> u64 {
    pte_bits_ppn(entry_at(mem, root, i))
}

/// Whether root entry `i` and entry `j` of the level-1 table under it are both valid.
pub open spec fn v1(mem: &PhysMem, root: u64, i: u64, j: u64) -> bool {
    v0(mem, root, i) && pte_bits_valid(entry_at(mem, l1(mem, root, i), j))
}

/// The frame that entry `j` of the level-1 table under root entry `i` points to.
pub open spec fn l0(mem: &PhysMem, root: u64, i: u64, j: u64) -> u64 {
    pte_bits_ppn(entry_at(mem, l1(mem, root, i), j))
}

/// The leaf entry that the walk for `vpn` finds, if every entry on its way is valid.
pub open spec fn walk(mem: &PhysMem, root: u64, vpn: u64) -> Option<PageTableEntry> {
    let i = vpn_index0(vpn);
    let j = vpn_index1(vpn);
    let k = vpn_index2(vpn);
    if !v0(mem, root, i) {
        None
    } else if !v1(mem, root, i, j) {
        None
    } else {
        let e = entry_at(mem, l0(mem, root, i, j), k);
        if pte_bits_valid(e) {
            Some(PageTableEntry { bits: e })
        } else {
            None
        }
    }
}

/// Whether frame `p` is one of the tables of the tree under `root`.
pub open spec fn in_tree(mem: &PhysMem, root: u64, p: u64) -> bool {
    ||| p == root
    ||| exists|i: u64| i < 512 && #[trigger] v0(mem, root, i) && l1(mem, root, i) == p
    ||| exists|i: u64, j: u64| i < 512 && j < 512 && #[trigger] v1(mem, root, i, j) && l0(mem, root, i, j) == p
}

/// The tables under `root` form a tree: the root, the level-1 tables and the level-0 tables
/// are pairwise different frames, each reached by exactly one entry.
pub open spec fn tree_wf(mem: &PhysMem, root: u64) -> bool {
    &&& forall|i: u64| i < 512 && #[trigger] v0(mem, root, i) ==> l1(mem, root, i) != root
    &&& forall|i: u64, i2: u64|
        i < 512 && i2 < 512 && i != i2 && #[trigger] v0(mem, root, i) && #[trigger] v0(mem, root, i2)
            ==> l1(mem, root, i) != l1(mem, root, i2)
    &&& forall|i: u64, j: u64|
        i < 512 && j < 512 && #[trigger] v1(mem, root, i, j) ==> l0(mem, root, i, j) != root
    &&& forall|i: u64, j: u64, i2: u64|
        i < 512 && j < 512 && i2 < 512 && #[trigger] v1(mem, root, i, j) && #[trigger] v0(mem, root, i2)
            ==> l0(mem, root, i, j) != l1(mem, root, i2)
    &&& forall|i: u64, j: u64, i2: u64, j2: u64|
        i < 512 && j < 512 && i2 < 512 && j2 < 512 && (i != i2 || j != j2) && #[trigger] v1(
            mem,
            root,
            i,
            j,
        ) && #[trigger] v1(mem, root, i2, j2) ==> l0(mem, root, i, j) != l0(mem, root, i2, j2)
}

/// The number of intermediate tables that mapping `vpn` has to create.
pub open spec fn tables_needed(mem: &PhysMem, root: u64, vpn: u64) -> int {
    if !v0(mem, root, vpn_index0(vpn)) {
        2
    } else if !v1(mem, root, vpn_index0(vpn), vpn_index1(vpn)) {
        1
    } else {
        0
    }
}

/// The allocator may hand out only frames outside the tree, and only frames whose number
/// fits the 44 bits of an Sv39 entry.
pub open spec fn alloc_ok_for(mem: &PhysMem, root: u64, a: FrameAllocState) -> bool {
    &&& a.wf()
    &&& a.end <= 0x1000_0000_0000
    &&& forall|p: u64| #[trigger] a.is_free(p) ==> !in_tree(mem, root, p) && p < 0x1000_0000_0000
}

/// Every frame that changed from `m1` to `m2` was a table of the tree or was handed out by
/// the allocator in between.
pub open spec fn changed_only(
    m1: &PhysMem,
    m2: &PhysMem,
    root: u64,
    a1: FrameAllocState,
    a2: FrameAllocState,
) -> bool {
    forall|p: u64|
        #![trigger m2.frame(p)]
        !in_tree(m1, root, p) && !(a1.is_free(p) && !a2.is_free(p)) ==> m2.frame(p) == m1.frame(p)
}

// ---------------------------------------------------------------------------------------
// Lemmas.
/// Memories that agree on the tables of a tree have the same tree and the same walks.
pub proof fn lemma_agree_on_tree(m1: &PhysMem, m2: &PhysMem, root: u64)
    requires
        forall|p: u64| #[trigger] in_tree(m1, root, p) ==> m2.frame(p) == m1.frame(p),
    ensures
        forall|i: u64| i < 512 ==> #[trigger] v0(m2, root, i) == v0(m1, root, i) && l1(m2, root, i)
            == l1(m1, root, i),
        forall|i: u64, j: u64|
            i < 512 && j < 512 ==> #[trigger] v1(m2, root, i, j) == v1(m1, root, i, j) && (v0(
                m1,
                root,
                i,
            ) ==> l0(m2, root, i, j) == l0(m1, root, i, j)),
        forall|p: u64| #[trigger] in_tree(m2, root, p) == in_tree(m1, root, p),
        forall|v: u64| #[trigger] walk(m2, root, v) == walk(m1, root, v),
        tree_wf(m2, root) == tree_wf(m1, root),
{
    assert(in_tree(m1, root, root));
    assert forall|i: u64| i < 512 implies #[trigger] v0(m2, root, i) == v0(m1, root, i) && l1(
        m2,
        root,
        i,
    ) == l1(m1, root, i) by {}
    assert forall|i: u64, j: u64| i < 512 && j < 512 implies #[trigger] v1(m2, root, i, j) == v1(
        m1,
        root,
        i,
        j,
    ) && (v0(m1, root, i) ==> l0(m2, root, i, j) == l0(m1, root, i, j)) by {
        if v0(m1, root, i) {
            assert(in_tree(m1, root, l1(m1, root, i)));
        }
    }
    assert forall|p: u64| #[trigger] in_tree(m2, root, p) == in_tree(m1, root, p) by {
        if in_tree(m2, root, p) && p != root {
            if exists|i: u64| i < 512 && #[trigger] v0(m2, root, i) && l1(m2, root, i) == p {
                let i = choose|i: u64| i < 512 && #[trigger] v0(m2, root, i) && l1(m2, root, i) == p;
                assert(v0(m1, root, i));
            } else {
                let (i, j) = choose|i: u64, j: u64|
                    i < 512 && j < 512 && #[trigger] v1(m2, root, i, j) && l0(m2, root, i, j) == p;
                assert(v1(m1, root, i, j));
            }
        }
        if in_tree(m1, root, p) && p != root {
            if exists|i: u64| i < 512 && #[trigger] v0(m1, root, i) && l1(m1, root, i) == p {
                let i = choose|i: u64| i < 512 && #[trigger] v0(m1, root, i) && l1(m1, root, i) == p;
                assert(v0(m2, root, i));
            } else {
                let (i, j) = choose|i: u64, j: u64|
                    i < 512 && j < 512 && #[trigger] v1(m1, root, i, j) && l0(m1, root, i, j) == p;
                assert(v1(m2, root, i, j));
            }
        }
    }
    assert forall|v: u64| #[trigger] walk(m2, root, v) == walk(m1, root, v) by {
        lemma_vpn_indexes(v);
        let i = vpn_index0(v);
        let j = vpn_index1(v);
        if v1(m1, root, i, j) {
            assert(in_tree(m1, root, l0(m1, root, i, j)));
        }
    }
    lemma_wf_transfer(m1, m2, root);
    lemma_wf_transfer(m2, m1, root);
}

/// The shape of a tree is all that `tree_wf` looks at.
proof fn lemma_wf_transfer(m1: &PhysMem, m2: &PhysMem, root: u64)
    requires
        forall|i: u64| i < 512 ==> #[trigger] v0(m2, root, i) == v0(m1, root, i) && l1(m2, root, i)
            == l1(m1, root, i),
        forall|i: u64, j: u64|
            i < 512 && j < 512 ==> #[trigger] v1(m2, root, i, j) == v1(m1, root, i, j) && (v0(
                m1,
                root,
                i,
            ) ==> l0(m2, root, i, j) == l0(m1, root, i, j)),
    ensures
        tree_wf(m1, root) ==> tree_wf(m2, root),
{
    if tree_wf(m1, root) {
        assert forall|i: u64| i < 512 && #[trigger] v0(m2, root, i) implies l1(m2, root, i) != root by {
            assert(v0(m1, root, i));
        }
        assert forall|i: u64, i2: u64|
            i < 512 && i2 < 512 && i != i2 && #[trigger] v0(m2, root, i) && #[trigger] v0(m2, root, i2)
            implies l1(m2, root, i) != l1(m2, root, i2) by {
            assert(v0(m1, root, i) && v0(m1, root, i2));
        }
        assert forall|i: u64, j: u64|
            i < 512 && j < 512 && #[trigger] v1(m2, root, i, j) implies l0(m2, root, i, j) != root by {
            assert(v1(m1, root, i, j));
        }
        assert forall|i: u64, j: u64, i2: u64|
            i < 512 && j < 512 && i2 < 512 && #[trigger] v1(m2, root, i, j) && #[trigger] v0(m2, root, i2)
            implies l0(m2, root, i, j) != l1(m2, root, i2) by {
            assert(v1(m1, root, i, j) && v0(m1, root, i2));
        }
        assert forall|i: u64, j: u64, i2: u64, j2: u64|
            i < 512 && j < 512 && i2 < 512 && j2 < 512 && (i != i2 || j != j2) && #[trigger] v1(
                m2,
                root,
                i,
                j,
            ) && #[trigger] v1(m2, root, i2, j2) implies l0(m2, root, i, j) != l0(m2, root, i2, j2) by {
            assert(v1(m1, root, i, j) && v1(m1, root, i2, j2));
        }
    }
}

/// Writing a word into a level-0 table of the tree changes only the walks through that
/// word, and keeps the tree.
pub proof fn lemma_write_leaf(m1: &PhysMem, m2: &PhysMem, root: u64, i: u64, j: u64, k: u64, val: u64)
    requires
        tree_wf(m1, root),
        i < 512,
        j < 512,
        k < 512,
        v1(m1, root, i, j),
        m2.frame(l0(m1, root, i, j)) == m1.frame(l0(m1, root, i, j)).update(k as int, val),
        forall|p: u64| p != l0(m1, root, i, j) ==> #[trigger] m2.frame(p) == m1.frame(p),
    ensures
        tree_wf(m2, root),
        forall|p: u64| #[trigger] in_tree(m2, root, p) == in_tree(m1, root, p),
        forall|a: u64| a < 512 ==> #[trigger] v0(m2, root, a) == v0(m1, root, a),
        forall|a: u64, b: u64| a < 512 && b < 512 ==> #[trigger] v1(m2, root, a, b) == v1(m1, root, a, b),
        forall|v: u64|
            #![trigger walk(m2, root, v)]
            !(vpn_index0(v) == i && vpn_index1(v) == j && vpn_index2(v) == k) ==> walk(m2, root, v)
                == walk(m1, root, v),
        forall|v: u64|
            #![trigger walk(m2, root, v)]
            (vpn_index0(v) == i && vpn_index1(v) == j && vpn_index2(v) == k) ==> walk(m2, root, v)
                == (if pte_bits_valid(val) {
                Some(PageTableEntry { bits: val })
            } else {
                None
            }),
{
    let t = l0(m1, root, i, j);
    assert(t != root);
    assert forall|i2: u64| i2 < 512 && #[trigger] v0(m1, root, i2) implies l1(m1, root, i2) != t by {}
    lemma_upper_levels_same(m1, m2, root, t);
    m1.lemma_frame_len(t);
    assert forall|v: u64| #![trigger walk(m2, root, v)] true implies (!(vpn_index0(v) == i && vpn_index1(v) == j && vpn_index2(v) == k) ==> walk(m2, root, v)
        == walk(m1, root, v)) && ((vpn_index0(v) == i && vpn_index1(v) == j && vpn_index2(v) == k) ==> walk(m2, root, v)
                == (if pte_bits_valid(val) {
                Some(PageTableEntry { bits: val })
            } else {
                None
            })) by {
        lemma_vpn_indexes(v);
        let a = vpn_index0(v);
        let b = vpn_index1(v);
        if v1(m1, root, a, b) {
            if a != i || b != j {
                assert(l0(m1, root, a, b) != t);
            }
        }
    }
}

/// Changing only a frame that is neither the root nor a level-1 table keeps the upper two
/// levels of the tree.
proof fn lemma_upper_levels_same(m1: &PhysMem, m2: &PhysMem, root: u64, t: u64)
    requires
        tree_wf(m1, root),
        t != root,
        forall|i: u64| i < 512 && #[trigger] v0(m1, root, i) ==> l1(m1, root, i) != t,
        forall|p: u64| p != t ==> #[trigger] m2.frame(p) == m1.frame(p),
    ensures
        forall|i: u64| i < 512 ==> #[trigger] v0(m2, root, i) == v0(m1, root, i) && l1(m2, root, i)
            == l1(m1, root, i),
        forall|i: u64, j: u64|
            i < 512 && j < 512 ==> #[trigger] v1(m2, root, i, j) == v1(m1, root, i, j) && (v0(
                m1,
                root,
                i,
            ) ==> l0(m2, root, i, j) == l0(m1, root, i, j)),
        forall|p: u64| #[trigger] in_tree(m2, root, p) == in_tree(m1, root, p),
        tree_wf(m2, root),
{
    assert forall|i: u64| i < 512 implies #[trigger] v0(m2, root, i) == v0(m1, root, i) && l1(
        m2,
        root,
        i,
    ) == l1(m1, root, i) by {
        assert(m2.frame(root) == m1.frame(root));
    }
    assert forall|i: u64, j: u64| i < 512 && j < 512 implies #[trigger] v1(m2, root, i, j) == v1(
        m1,
        root,
        i,
        j,
    ) && (v0(m1, root, i) ==> l0(m2, root, i, j) == l0(m1, root, i, j)) by {
        assert(m2.frame(root) == m1.frame(root));
        if v0(m1, root, i) {
            assert(m2.frame(l1(m1, root, i)) == m1.frame(l1(m1, root, i)));
        }
    }
    assert forall|p: u64| #[trigger] in_tree(m2, root, p) == in_tree(m1, root, p) by {
        if in_tree(m2, root, p) && p != root {
            if exists|i: u64| i < 512 && #[trigger] v0(m2, root, i) && l1(m2, root, i) == p {
                let i = choose|i: u64| i < 512 && #[trigger] v0(m2, root, i) && l1(m2, root, i) == p;
                assert(v0(m1, root, i));
            } else {
                let (i, j) = choose|i: u64, j: u64|
                    i < 512 && j < 512 && #[trigger] v1(m2, root, i, j) && l0(m2, root, i, j) == p;
                assert(v1(m1, root, i, j));
            }
        }
        if in_tree(m1, root, p) && p != root {
            if exists|i: u64| i < 512 && #[trigger] v0(m1, root, i) && l1(m1, root, i) == p {
                let i = choose|i: u64| i < 512 && #[trigger] v0(m1, root, i) && l1(m1, root, i) == p;
                assert(v0(m2, root, i));
            } else {
                let (i, j) = choose|i: u64, j: u64|
                    i < 512 && j < 512 && #[trigger] v1(m1, root, i, j) && l0(m1, root, i, j) == p;
                assert(v1(m2, root, i, j));
            }
        }
    }
    lemma_wf_transfer(m1, m2, root);
}

/// Pointing an invalid root entry at a zeroed frame outside the tree keeps the tree
/// well-formed, adds that frame to it, and changes no walk.
pub proof fn lemma_attach_root(m1: &PhysMem, m2: &PhysMem, root: u64, i: u64, f: u64)
    requires
        tree_wf(m1, root),
        i < 512,
        !v0(m1, root, i),
        !in_tree(m1, root, f),
        m1.frame(f) == zero_frame(),
        f < 0x1000_0000_0000,
        m2.frame(root) == m1.frame(root).update(i as int, pte_bits(f, FLAG_V)),
        forall|p: u64| p != root ==> #[trigger] m2.frame(p) == m1.frame(p),
    ensures
        tree_wf(m2, root),
        forall|p: u64| #[trigger] in_tree(m2, root, p) == (in_tree(m1, root, p) || p == f),
        forall|v: u64| #[trigger] walk(m2, root, v) == walk(m1, root, v),
        v0(m2, root, i),
        l1(m2, root, i) == f,
        forall|a: u64| a < 512 && a != i ==> #[trigger] v0(m2, root, a) == v0(m1, root, a),
        forall|a: u64, b: u64| a < 512 && b < 512 ==> #[trigger] v1(m2, root, a, b) == v1(m1, root, a, b),
{
    law_pte_roundtrip(f, FLAG_V);
    assert(FLAG_V & 1u8 != 0) by (bit_vector);
    lemma_zero_pte();
    m1.lemma_frame_len(root);
    assert(f != root);
    assert(in_tree(m1, root, root));
    assert forall|i2: u64| i2 < 512 && i2 != i implies #[trigger] v0(m2, root, i2) == v0(m1, root, i2)
        && l1(m2, root, i2) == l1(m1, root, i2) by {}
    assert forall|i2: u64, j: u64| i2 < 512 && j < 512 implies #[trigger] v1(m2, root, i2, j) == v1(
        m1,
        root,
        i2,
        j,
    ) && (v0(m1, root, i2) ==> l0(m2, root, i2, j) == l0(m1, root, i2, j)) by {
        if i2 != i {
            if v0(m1, root, i2) {
                assert(l1(m1, root, i2) != root);
            }
        } else {
            assert(entry_at(m2, f, j) == 0);
        }
    }
    assert forall|i2: u64| i2 < 512 && #[trigger] v0(m1, root, i2) implies l1(m1, root, i2) != f by {
        assert(in_tree(m1, root, l1(m1, root, i2)));
    }
    assert forall|i2: u64, j: u64| i2 < 512 && j < 512 && #[trigger] v1(m1, root, i2, j) implies l0(
        m1,
        root,
        i2,
        j,
    ) != f by {
        assert(in_tree(m1, root, l0(m1, root, i2, j)));
    }
    // The tree stays well-formed.
    assert forall|a: u64| a < 512 && #[trigger] v0(m2, root, a) implies l1(m2, root, a) != root by {}
    assert forall|a: u64, b: u64|
        a < 512 && b < 512 && a != b && #[trigger] v0(m2, root, a) && #[trigger] v0(m2, root, b)
        implies l1(m2, root, a) != l1(m2, root, b) by {}
    assert forall|a: u64, b: u64| a < 512 && b < 512 && #[trigger] v1(m2, root, a, b) implies l0(
        m2,
        root,
        a,
        b,
    ) != root by {
        assert(v1(m1, root, a, b));
    }
    assert forall|a: u64, b: u64, a2: u64|
        a < 512 && b < 512 && a2 < 512 && #[trigger] v1(m2, root, a, b) && #[trigger] v0(m2, root, a2)
        implies l0(m2, root, a, b) != l1(m2, root, a2) by {
        assert(v1(m1, root, a, b));
    }
    assert forall|a: u64, b: u64, a2: u64, b2: u64|
        a < 512 && b < 512 && a2 < 512 && b2 < 512 && (a != a2 || b != b2) && #[trigger] v1(
            m2,
            root,
            a,
            b,
        ) && #[trigger] v1(m2, root, a2, b2) implies l0(m2, root, a, b) != l0(m2, root, a2, b2) by {
        assert(v1(m1, root, a, b));
        assert(v1(m1, root, a2, b2));
    }
    assert forall|p: u64| #[trigger] in_tree(m2, root, p) == (in_tree(m1, root, p) || p == f) by {
        if in_tree(m2, root, p) && p != root && p != f {
            if exists|a: u64| a < 512 && #[trigger] v0(m2, root, a) && l1(m2, root, a) == p {
                let a = choose|a: u64| a < 512 && #[trigger] v0(m2, root, a) && l1(m2, root, a) == p;
                assert(v0(m1, root, a));
            } else {
                let (a, b) = choose|a: u64, b: u64|
                    a < 512 && b < 512 && #[trigger] v1(m2, root, a, b) && l0(m2, root, a, b) == p;
                assert(v1(m1, root, a, b));
            }
        }
        if in_tree(m1, root, p) && p != root {
            if exists|a: u64| a < 512 && #[trigger] v0(m1, root, a) && l1(m1, root, a) == p {
                let a = choose|a: u64| a < 512 && #[trigger] v0(m1, root, a) && l1(m1, root, a) == p;
                assert(v0(m2, root, a));
            } else {
                let (a, b) = choose|a: u64, b: u64|
                    a < 512 && b < 512 && #[trigger] v1(m1, root, a, b) && l0(m1, root, a, b) == p;
                assert(v1(m2, root, a, b));
            }
        }
        if p == f {
            assert(v0(m2, root, i));
        }
    }
    assert forall|v: u64| #[trigger] walk(m2, root, v) == walk(m1, root, v) by {
        lemma_vpn_indexes(v);
        let a = vpn_index0(v);
        let b = vpn_index1(v);
        if a != i && v1(m1, root, a, b) {
            let t = l0(m1, root, a, b);
            assert(t != root);
        }
    }
}

/// Pointing an invalid entry of a level-1 table at a zeroed frame outside the tree keeps
/// the tree well-formed, adds that frame to it, and changes no walk.
pub proof fn lemma_attach_l1(m1: &PhysMem, m2: &PhysMem, root: u64, i: u64, j: u64, f: u64)
    requires
        tree_wf(m1, root),
        i < 512,
        j < 512,
        v0(m1, root, i),
        !v1(m1, root, i, j),
        !in_tree(m1, root, f),
        m1.frame(f) == zero_frame(),
        f < 0x1000_0000_0000,
        m2.frame(l1(m1, root, i)) == m1.frame(l1(m1, root, i)).update(j as int, pte_bits(f, FLAG_V)),
        forall|p: u64| p != l1(m1, root, i) ==> #[trigger] m2.frame(p) == m1.frame(p),
    ensures
        tree_wf(m2, root),
        forall|p: u64| #[trigger] in_tree(m2, root, p) == (in_tree(m1, root, p) || p == f),
        forall|v: u64| #[trigger] walk(m2, root, v) == walk(m1, root, v),
        v0(m2, root, i),
        l1(m2, root, i) == l1(m1, root, i),
        v1(m2, root, i, j),
        l0(m2, root, i, j) == f,
        forall|a: u64| a < 512 ==> #[trigger] v0(m2, root, a) == v0(m1, root, a),
        forall|a: u64, b: u64| a < 512 && b < 512 && !(a == i && b == j) ==> #[trigger] v1(m2, root, a, b) == v1(m1, root, a, b),
{
    let t = l1(m1, root, i);
    law_pte_roundtrip(f, FLAG_V);
    assert(FLAG_V & 1u8 != 0) by (bit_vector);
    lemma_zero_pte();
    m1.lemma_frame_len(t);
    assert(t != root);
    assert(in_tree(m1, root, root));
    assert(in_tree(m1, root, t));
    assert(f != root && f != t);
    assert forall|a: u64| a < 512 implies #[trigger] v0(m2, root, a) == v0(m1, root, a) && l1(
        m2,
        root,
        a,
    ) == l1(m1, root, a) by {}
    assert forall|a: u64, b: u64| a < 512 && b < 512 && !(a == i && b == j) implies #[trigger] v1(
        m2,
        root,
        a,
        b,
    ) == v1(m1, root, a, b) && (v0(m1, root, a) ==> l0(m2, root, a, b) == l0(m1, root, a, b)) by {
        if a != i && v0(m1, root, a) {
            assert(l1(m1, root, a) != t);
        }
    }
    assert forall|a: u64| a < 512 && #[trigger] v0(m1, root, a) implies l1(m1, root, a) != f by {
        assert(in_tree(m1, root, l1(m1, root, a)));
    }
    assert forall|a: u64, b: u64| a < 512 && b < 512 && #[trigger] v1(m1, root, a, b) implies l0(
        m1,
        root,
        a,
        b,
    ) != f by {
        assert(in_tree(m1, root, l0(m1, root, a, b)));
    }
    assert(v1(m2, root, i, j));
    // The tree stays well-formed.
    assert forall|a: u64| a < 512 && #[trigger] v0(m2, root, a) implies l1(m2, root, a) != root by {}
    assert forall|a: u64, b: u64|
        a < 512 && b < 512 && a != b && #[trigger] v0(m2, root, a) && #[trigger] v0(m2, root, b)
        implies l1(m2, root, a) != l1(m2, root, b) by {}
    assert forall|a: u64, b: u64| a < 512 && b < 512 && #[trigger] v1(m2, root, a, b) implies l0(
        m2,
        root,
        a,
        b,
    ) != root by {
        if !(a == i && b == j) {
            assert(v1(m1, root, a, b));
        }
    }
    assert forall|a: u64, b: u64, a2: u64|
        a < 512 && b < 512 && a2 < 512 && #[trigger] v1(m2, root, a, b) && #[trigger] v0(m2, root, a2)
        implies l0(m2, root, a, b) != l1(m2, root, a2) by {
        if !(a == i && b == j) {
            assert(v1(m1, root, a, b));
        }
        assert(v0(m1, root, a2));
    }
    assert forall|a: u64, b: u64, a2: u64, b2: u64|
        a < 512 && b < 512 && a2 < 512 && b2 < 512 && (a != a2 || b != b2) && #[trigger] v1(
            m2,
            root,
            a,
            b,
        ) && #[trigger] v1(m2, root, a2, b2) implies l0(m2, root, a, b) != l0(m2, root, a2, b2) by {
        if !(a == i && b == j) {
            assert(v1(m1, root, a, b));
        }
        if !(a2 == i && b2 == j) {
            assert(v1(m1, root, a2, b2));
        }
    }
    assert forall|p: u64| #[trigger] in_tree(m2, root, p) == (in_tree(m1, root, p) || p == f) by {
        if in_tree(m2, root, p) && p != root && p != f {
            if exists|a: u64| a < 512 && #[trigger] v0(m2, root, a) && l1(m2, root, a) == p {
                let a = choose|a: u64| a < 512 && #[trigger] v0(m2, root, a) && l1(m2, root, a) == p;
                assert(v0(m1, root, a));
            } else {
                let (a, b) = choose|a: u64, b: u64|
                    a < 512 && b < 512 && #[trigger] v1(m2, root, a, b) && l0(m2, root, a, b) == p;
                assert(!(a == i && b == j));
                assert(v1(m1, root, a, b));
            }
        }
        if in_tree(m1, root, p) && p != root {
            if exists|a: u64| a < 512 && #[trigger] v0(m1, root, a) && l1(m1, root, a) == p {
                let a = choose|a: u64| a < 512 && #[trigger] v0(m1, root, a) && l1(m1, root, a) == p;
                assert(v0(m2, root, a));
            } else {
                let (a, b) = choose|a: u64, b: u64|
                    a < 512 && b < 512 && #[trigger] v1(m1, root, a, b) && l0(m1, root, a, b) == p;
                assert(!(a == i && b == j));
                assert(v1(m2, root, a, b));
            }
        }
        if p == f {
            assert(v1(m2, root, i, j));
        }
    }
    assert forall|v: u64| #[trigger] walk(m2, root, v) == walk(m1, root, v) by {
        lemma_vpn_indexes(v);
        let a = vpn_index0(v);
        let b = vpn_index1(v);
        if a == i && b == j {
            assert(entry_at(m2, f, vpn_index2(v)) == 0);
        } else if v1(m1, root, a, b) {
            let t0 = l0(m1, root, a, b);
            assert(t0 != t);
        }
    }
}

// ---------------------------------------------------------------------------------------
// The page table.
/// A page table: the frame of its root, and the frames of the tables it created.
pub struct PageTable {
    pub root_ppn: PhysPageNum,
    pub frames: Vec<PhysPageNum>,
}

/// The allocator only ever shrinks its free set and keeps its bounds.
pub open spec fn alloc_shrinks(a1: FrameAllocState, a2: FrameAllocState) -> bool {
    &&& a2.wf()
    &&& a2.end == a1.end
    &&& forall|x: u64| #[trigger] a2.is_free(x) ==> a1.is_free(x)
}

/// The tree of `m2` is the tree of `m1` plus the frames the allocator handed out in between.
pub open spec fn tree_grows(
    m1: &PhysMem,
    m2: &PhysMem,
    root: u64,
    a1: FrameAllocState,
    a2: FrameAllocState,
) -> bool {
    forall|p: u64|
        #[trigger] in_tree(m2, root, p) <==> (in_tree(m1, root, p) || (a1.is_free(p) && !a2.is_free(p)))
}

/// Only the tables on the way to `vpn` became valid: every level-1 table valid in `m2` was
/// valid in `m1` or is the one for `vpn`, and likewise for every level-0 table.
pub open spec fn tables_grow_for(m1: &PhysMem, m2: &PhysMem, root: u64, vpn: u64) -> bool {
    &&& forall|a: u64| a < 512 && #[trigger] v0(m2, root, a) ==> v0(m1, root, a) || a == vpn_index0(vpn)
    &&& forall|a: u64, b: u64|
        a < 512 && b < 512 && #[trigger] v1(m2, root, a, b) ==> v1(m1, root, a, b) || (a == vpn_index0(vpn) && b == vpn_index1(vpn))
}

/// The entry that `map` writes: the page number and the flags with V added.
pub open spec fn mapped_pte(ppn: u64, flags: u8) -> PageTableEntry {
    PageTableEntry { bits: pte_bits(ppn, flags | FLAG_V) }
}

/// The walks after mapping `vpn`: the slot of `vpn` gets the new entry if it was not
/// mapped, every other walk is unchanged.
pub open spec fn walk_after_map(
    m: &PhysMem,
    root: u64,
    vpn: u64,
    ppn: u64,
    flags: u8,
    v: u64,
) -> Option<PageTableEntry> {
    if vpn_sv39(v) == vpn_sv39(vpn) && walk(m, root, vpn) is None {
        Some(mapped_pte(ppn, flags))
    } else {
        walk(m, root, v)
    }
}

/// The walks after unmapping `vpn`.
pub open spec fn walk_after_unmap(m: &PhysMem, root: u64, vpn: u64, v: u64) -> Option<PageTableEntry> {
    if vpn_sv39(v) == vpn_sv39(vpn) {
        None
    } else {
        walk(m, root, v)
    }
}

/// The `satp` value that selects Sv39 with root page `root`.
pub open spec fn satp_of(root: u64) -> u64 {
    (8u64 << 60u64) | root
}

/// The physical address that virtual address `va` translates to under `root`.
pub open spec fn translate_va_spec(m: &PhysMem, root: u64, va: u64) -> Option<PhysAddr> {
    match walk(m, root, va / 4096) {
        Some(e) => Some(PhysAddr((pte_bits_ppn(e.bits) * 4096 + va % 4096) as u64)),
        None => None,
    }
}

impl PageTable {
    /// The frames of the tables this page table created, oldest first.
    pub open spec fn owned_frames(&self) -> Seq<PhysPageNum> {
        self.frames@
    }

    /// A page table with a fresh, zeroed root.
    pub fn new(mem: &mut PhysMem, allocator: &mut FrameAllocator) -> (r: PageTable)
        requires
            old(allocator)@.wf(),
            old(allocator)@.can_alloc(),
        ensures
            (final(allocator)@, Some(r.root_ppn.0)) == old(allocator)@.alloc_spec(),
            final(allocator)@.wf(),
            old(allocator)@.is_free(r.root_ppn.0),
            !final(allocator)@.is_free(r.root_ppn.0),
            final(mem).frame(r.root_ppn.0) == zero_frame(),
            forall|p: u64| p != r.root_ppn.0 ==> #[trigger] final(mem).frame(p) == old(mem).frame(p),
            tree_wf(final(mem), r.root_ppn.0),
            forall|p: u64| #[trigger] in_tree(final(mem), r.root_ppn.0, p) <==> p == r.root_ppn.0,
            forall|v: u64| #[trigger] walk(final(mem), r.root_ppn.0, v) is None,
            forall|a: u64| a < 512 ==> !#[trigger] v0(final(mem), r.root_ppn.0, a),
            r.owned_frames() == seq![r.root_ppn],
    {
        proof {
            lemma_alloc_free_set(old(allocator)@);
        }
        let frame = allocator.allocate().unwrap();
        mem.zero_frame(frame);
        let mut frames = Vec::new();
        frames.push(frame);
        let r = PageTable { root_ppn: frame, frames };
        proof {
            lemma_zero_pte();
            let m = &*mem;
            let root = frame.0;
            assert forall|i: u64| i < 512 implies !#[trigger] v0(m, root, i) by {
                assert(entry_at(m, root, i) == 0);
            }
            assert forall|i: u64, j: u64| i < 512 && j < 512 implies !#[trigger] v1(m, root, i, j) by {
                assert(!v0(m, root, i));
            }
            assert forall|p: u64| #[trigger] in_tree(m, root, p) <==> p == root by {}
            assert forall|v: u64| #[trigger] walk(m, root, v) is None by {
                lemma_vpn_indexes(v);
                assert(!v0(m, root, vpn_index0(v)));
            }
            assert(r.frames@ =~= seq![r.root_ppn]);
        }
        r
    }

    /// The `satp` value that activates this page table in Sv39 mode.
    pub fn satp(&self) -> (r: u64)
        ensures
            r == satp_of(self.root_ppn.0),
    {
        (8u64 << 60) | self.root_ppn.0
    }

    /// A view of the page table that a `satp` value selects; it owns no frame.
    pub fn from_token(satp: u64) -> (r: PageTable)
        ensures
            r.root_ppn.0 == satp & 0xfff_ffff_ffffu64,
            r.owned_frames() == Seq::<PhysPageNum>::empty(),
    {
        let r = PageTable { root_ppn: PhysPageNum(satp & crate::config::PPN_MASK), frames: Vec::new() };
        proof {
            assert(r.frames@ =~= Seq::<PhysPageNum>::empty());
        }
        r
    }

    /// Hands out a zeroed table frame, or nothing when no aligned frame is left.
    fn new_table(
        mem: &mut PhysMem,
        allocator: &mut FrameAllocator,
        Ghost(root): Ghost<u64>,
    ) -> (r: Option<PhysPageNum>)
        requires
            alloc_ok_for(old(mem), root, old(allocator)@),
        ensures
            alloc_shrinks(old(allocator)@, final(allocator)@),
            r is Some <==> old(allocator)@.aligned_count() > 0,
            r is Some ==> {
                let f = (r->0).0;
                &&& old(allocator)@.is_free(f)
                &&& !final(allocator)@.is_free(f)
                &&& forall|x: u64| #[trigger] final(allocator)@.is_free(x) <==> (old(allocator)@.is_free(x) && x != f)
                &&& f < 0x1000_0000_0000
                &&& !in_tree(old(mem), root, f)
                &&& final(mem).frame(f) == zero_frame()
                &&& forall|p: u64| p != f ==> #[trigger] final(mem).frame(p) == old(mem).frame(p)
                &&& final(allocator)@.aligned_count() == old(allocator)@.aligned_count() - 1
            },
            r is None ==> {
                &&& forall|x: u64| #[trigger] final(allocator)@.is_free(x) <==> old(allocator)@.is_free(x)
                &&& *final(mem) == *old(mem)
            },
    {
        match crate::frame::alloc_pte_frame(allocator) {
            Some(frame) => {
                proof {
                    lemma_pte_alloc_free_set(old(allocator)@, allocator@, frame.0);
                }
                mem.zero_frame(frame);
                Some(frame)
            },
            None => {
                proof {
                    lemma_pte_alloc_none_free_set(old(allocator)@, allocator@);
                }
                None
            },
        }
    }

    /// Finds the leaf slot for `vpn`, creating the missing intermediate tables on the way;
    /// gives the frame of the leaf table and the index of the slot in it.
    fn find_pte_create(
        &mut self,
        mem: &mut PhysMem,
        allocator: &mut FrameAllocator,
        vpn: VirtPageNum,
    ) -> (r: Option<(PhysPageNum, usize)>)
        requires
            tree_wf(old(mem), old(self).root_ppn.0),
            tables_needed(old(mem), old(self).root_ppn.0, vpn.0) > 0 ==> alloc_ok_for(
                old(mem),
                old(self).root_ppn.0,
                old(allocator)@,
            ),
        ensures
            final(self).root_ppn == old(self).root_ppn,
            tree_wf(final(mem), final(self).root_ppn.0),
            forall|v: u64| #[trigger] walk(final(mem), final(self).root_ppn.0, v) == walk(old(mem), old(self).root_ppn.0, v),
            tables_needed(old(mem), old(self).root_ppn.0, vpn.0) == 0 ==> {
                &&& *final(mem) == *old(mem)
                &&& final(allocator)@ == old(allocator)@
                &&& final(self).owned_frames() == old(self).owned_frames()
            },
            tables_needed(old(mem), old(self).root_ppn.0, vpn.0) > 0 ==> {
                &&& alloc_shrinks(old(allocator)@, final(allocator)@)
                &&& tree_grows(old(mem), final(mem), old(self).root_ppn.0, old(allocator)@, final(allocator)@)
                &&& changed_only(old(mem), final(mem), old(self).root_ppn.0, old(allocator)@, final(allocator)@)
                &&& alloc_ok_for(final(mem), old(self).root_ppn.0, final(allocator)@)
                &&& old(self).owned_frames().is_prefix_of(final(self).owned_frames())
            },
            r is Some <==> old(allocator)@.aligned_count() >= tables_needed(old(mem), old(self).root_ppn.0, vpn.0),
            tables_grow_for(old(mem), final(mem), old(self).root_ppn.0, vpn.0),
            r is Some ==> {
                let (t, k) = r->0;
                &&& final(allocator)@.aligned_count() == old(allocator)@.aligned_count() - tables_needed(old(mem), old(self).root_ppn.0, vpn.0)
                &&& k == vpn_index2(vpn.0)
                &&& v1(final(mem), final(self).root_ppn.0, vpn_index0(vpn.0), vpn_index1(vpn.0))
                &&& l0(final(mem), final(self).root_ppn.0, vpn_index0(vpn.0), vpn_index1(vpn.0)) == t.0
            },
    {
        let idxs = vpn.indexes();
        let ghost root = self.root_ppn.0;
        let ghost m0 = *mem;
        let ghost a0 = allocator@;
        let ghost f0 = self.frames@;
        let ghost i = vpn_index0(vpn.0);
        let ghost j = vpn_index1(vpn.0);
        proof {
            lemma_vpn_indexes(vpn.0);
        }
        let root_ppn = self.root_ppn;
        let e0 = PageTableEntry { bits: mem.read_word(root_ppn, idxs[0] as usize) };
        let t1: PhysPageNum;
        if !e0.is_valid() {
            let frame = match Self::new_table(mem, allocator, Ghost(root)) {
                Some(f) => f,
                None => {
                    return None;
                },
            };
            let ghost m1 = *mem;
            proof {
                lemma_agree_on_tree(&m0, &m1, root);
            }
            let pte = PageTableEntry::new(frame, PTEFlags::V());
            mem.write_word(root_ppn, idxs[0] as usize, pte.bits);
            self.frames.push(frame);
            proof {
                lemma_attach_root(&m1, mem, root, i, frame.0);
                assert forall|p: u64| #[trigger] in_tree(mem, root, p) <==> (in_tree(&m0, root, p) || (a0.is_free(p) && !allocator@.is_free(p))) by {}
            }
            t1 = frame;
        } else {
            t1 = e0.ppn();
        }
        let ghost m2 = *mem;
        let ghost a2 = allocator@;
        proof {
            assert(v0(&m2, root, i));
            assert(l1(&m2, root, i) == t1.0);
            if v0(&m0, root, i) {
                assert(a2 == a0);
                assert(m2 == m0);
            } else {
                assert(tables_needed(&m0, root, vpn.0) == 2);
                assert(a2.aligned_count() == a0.aligned_count() - 1);
                lemma_zero_pte();
                assert(!v1(&m2, root, i, j));
            }
        }
        let e1 = PageTableEntry { bits: mem.read_word(t1, idxs[1] as usize) };
        let t0: PhysPageNum;
        if !e1.is_valid() {
            proof {
                assert(!v1(&m2, root, i, j));
                if v0(&m0, root, i) {
                    assert(*mem == m0);
                    assert(tables_needed(&m0, root, vpn.0) == 1);
                }
                assert(alloc_ok_for(&m2, root, a2));
            }
            let frame = match Self::new_table(mem, allocator, Ghost(root)) {
                Some(f) => f,
                None => {
                    proof {
                        assert(self.frames@ == f0 || self.frames@ == f0.push(t1));
                        assert(f0.is_prefix_of(self.frames@));
                    }
                    return None;
                },
            };
            let ghost m3 = *mem;
            proof {
                lemma_agree_on_tree(&m2, &m3, root);
            }
            let pte = PageTableEntry::new(frame, PTEFlags::V());
            mem.write_word(t1, idxs[1] as usize, pte.bits);
            self.frames.push(frame);
            proof {
                lemma_attach_l1(&m3, mem, root, i, j, frame.0);
                assert(allocator@.aligned_count() == a0.aligned_count() - tables_needed(&m0, root, vpn.0));
            }
            t0 = frame;
        } else {
            t0 = e1.ppn();
            proof {
                assert(v1(&m2, root, i, j));
                assert(l0(&m2, root, i, j) == t0.0);
                assert(v0(&m0, root, i));
                assert(tables_needed(&m0, root, vpn.0) == 0);
            }
        }
        proof {
            assert(f0.is_prefix_of(self.frames@));
        }
        Some((t0, idxs[2] as usize))
    }

    /// Maps `vpn` to `ppn` with `flags` (V added), creating the missing intermediate
    /// tables; a page that is already mapped is left as it is.
    pub fn map(
        &mut self,
        mem: &mut PhysMem,
        allocator: &mut FrameAllocator,
        vpn: VirtPageNum,
        ppn: PhysPageNum,
        flags: PTEFlags,
    )
        requires
            tree_wf(old(mem), old(self).root_ppn.0),
            alloc_ok_for(old(mem), old(self).root_ppn.0, old(allocator)@),
            old(allocator)@.aligned_count() >= tables_needed(old(mem), old(self).root_ppn.0, vpn.0),
        ensures
            final(self).root_ppn == old(self).root_ppn,
            tree_wf(final(mem), final(self).root_ppn.0),
            alloc_ok_for(final(mem), final(self).root_ppn.0, final(allocator)@),
            alloc_shrinks(old(allocator)@, final(allocator)@),
            tree_grows(old(mem), final(mem), old(self).root_ppn.0, old(allocator)@, final(allocator)@),
            changed_only(old(mem), final(mem), old(self).root_ppn.0, old(allocator)@, final(allocator)@),
            final(allocator)@.aligned_count() == old(allocator)@.aligned_count() - tables_needed(
                old(mem),
                old(self).root_ppn.0,
                vpn.0,
            ),
            old(self).owned_frames().is_prefix_of(final(self).owned_frames()),
            forall|v: u64|
                #[trigger] walk(final(mem), final(self).root_ppn.0, v) == walk_after_map(
                    old(mem),
                    old(self).root_ppn.0,
                    vpn.0,
                    ppn.0,
                    flags@,
                    v,
                ),
            tables_grow_for(old(mem), final(mem), old(self).root_ppn.0, vpn.0),
    {
        let ghost root = self.root_ppn.0;
        let ghost m0 = *mem;
        let ghost a0 = allocator@;
        let ghost i = vpn_index0(vpn.0);
        let ghost j = vpn_index1(vpn.0);
        let ghost k = vpn_index2(vpn.0);
        let (t, slot) = self.find_pte_create(mem, allocator, vpn).unwrap();
        let ghost m1 = *mem;
        proof {
            lemma_vpn_indexes(vpn.0);
            if tables_needed(&m0, root, vpn.0) == 0 {
                assert(self.frames@ == old(self).frames@);
                assert(old(self).frames@.is_prefix_of(self.frames@));
            }
        }
        let pte = PageTableEntry { bits: mem.read_word(t, slot) };
        if pte.is_valid() {
            proof {
                assert(walk(&m1, root, vpn.0) is Some);
                assert forall|v: u64| #[trigger] walk(mem, root, v) == walk_after_map(&m0, root, vpn.0, ppn.0, flags@, v) by {}
            }
            return;
        }
        let new_pte = PageTableEntry::new(ppn, flags.union(PTEFlags::V()));
        mem.write_word(t, slot, new_pte.bits);
        proof {
            let bits = pte_bits(ppn.0, flags@ | FLAG_V);
            law_pte_roundtrip(ppn.0, flags@ | FLAG_V);
            let f = flags@;
            assert((f | 1u8) & 1u8 != 0) by (bit_vector);
            assert(walk(&m1, root, vpn.0) is None);
            lemma_write_leaf(&m1, mem, root, i, j, k, bits);
            assert forall|v: u64| #[trigger] walk(mem, root, v) == walk_after_map(&m0, root, vpn.0, ppn.0, flags@, v) by {
                lemma_vpn_indexes_eq(v, vpn.0);
            }
            assert(in_tree(&m1, root, t.0)) by {
                assert(v1(&m1, root, i, j));
            }
            assert forall|p: u64| #[trigger] in_tree(mem, root, p) <==> (in_tree(&m0, root, p) || (a0.is_free(p) && !allocator@.is_free(p))) by {}
        }
    }

    /// Removes the mapping of `vpn`, which must be mapped.
    pub fn unmap(&mut self, mem: &mut PhysMem, allocator: &mut FrameAllocator, vpn: VirtPageNum)
        requires
            tree_wf(old(mem), old(self).root_ppn.0),
            walk(old(mem), old(self).root_ppn.0, vpn.0) is Some,
        ensures
            final(self).root_ppn == old(self).root_ppn,
            final(self).owned_frames() == old(self).owned_frames(),
            final(allocator)@ == old(allocator)@,
            tree_wf(final(mem), final(self).root_ppn.0),
            forall|p: u64| #[trigger] in_tree(final(mem), final(self).root_ppn.0, p) == in_tree(old(mem), old(self).root_ppn.0, p),
            forall|p: u64|
                p != l0(old(mem), old(self).root_ppn.0, vpn_index0(vpn.0), vpn_index1(vpn.0))
                    ==> #[trigger] final(mem).frame(p) == old(mem).frame(p),
            forall|v: u64|
                #[trigger] walk(final(mem), final(self).root_ppn.0, v) == walk_after_unmap(
                    old(mem),
                    old(self).root_ppn.0,
                    vpn.0,
                    v,
                ),
    {
        let ghost root = self.root_ppn.0;
        let ghost m0 = *mem;
        proof {
            lemma_vpn_indexes(vpn.0);
        }
        let (t, slot) = self.find_pte_create(mem, allocator, vpn).unwrap();
        mem.write_word(t, slot, PageTableEntry::empty().bits);
        proof {
            lemma_zero_pte();
            lemma_write_leaf(&m0, mem, root, vpn_index0(vpn.0), vpn_index1(vpn.0), vpn_index2(vpn.0), 0);
            assert forall|v: u64| #[trigger] walk(mem, root, v) == walk_after_unmap(&m0, root, vpn.0, v) by {
                lemma_vpn_indexes_eq(v, vpn.0);
            }
        }
    }

    /// The leaf entry that the walk for `vpn` finds.
    pub fn translate(&self, mem: &PhysMem, vpn: VirtPageNum) -> (r: Option<PageTableEntry>)
        ensures
            r == walk(mem, self.root_ppn.0, vpn.0),
    {
        let idxs = vpn.indexes();
        let ghost root = self.root_ppn.0;
        let ghost i0 = vpn_index0(vpn.0);
        let ghost i1 = vpn_index1(vpn.0);
        proof {
            lemma_vpn_indexes(vpn.0);
        }
        let mut ppn = self.root_ppn;
        let mut i: usize = 0;
        while i < 3
            invariant
                i <= 2,
                idxs@.len() == 3,
                idxs@[0] == i0,
                idxs@[1] == i1,
                idxs@[2] == vpn_index2(vpn.0),
                i0 == vpn_index0(vpn.0),
                i1 == vpn_index1(vpn.0),
                i0 < 512,
                i1 < 512,
                vpn_index2(vpn.0) < 512,
                root == self.root_ppn.0,
                i == 0 ==> ppn.0 == root,
                i == 1 ==> v0(mem, root, i0) && ppn.0 == l1(mem, root, i0),
                i == 2 ==> v1(mem, root, i0, i1) && ppn.0 == l0(mem, root, i0, i1),
            decreases 3 - i,
        {
            let idx = idxs[i];
            let e = PageTableEntry { bits: mem.read_word(ppn, idx as usize) };
            if !e.is_valid() {
                return None;
            }
            if i == 2 {
                return Some(e);
            }
            ppn = e.ppn();
            i = i + 1;
        }
        None
    }

    /// The physical address that `va` translates to.
    pub fn translate_va(&self, mem: &PhysMem, va: VirtAddr) -> (r: Option<PhysAddr>)
        ensures
            r == translate_va_spec(mem, self.root_ppn.0, va.0),
    {
        match self.translate(mem, va.floor()) {
            Some(pte) => {
                let base = PhysAddr::from(pte.ppn());
                proof {
                    crate::address::lemma_shl12(pte_bits_ppn(pte.bits));
                }
                Some(PhysAddr(base.0 + va.page_offset()))
            },
            None => None,
        }
    }
}

/// The entry that maps a 2 MiB page at `ppn` from a level-1 table: page number bits 26..18
/// and 17..9 of `ppn` in bits 53..28 and 27..19, the flags with V in bits 7..0.
pub open spec fn huge_pte_bits(ppn: u64, flags: u8) -> u64 {
    ((ppn >> 18u64) << 28u64) | (((ppn >> 9u64) & 0x1ffu64) << 19u64) | ((flags | FLAG_V) as u64)
}

/// A 2 MiB entry points to the (2 MiB-aligned) page it maps, and is valid.
pub proof fn law_huge_pte(ppn: u64, flags: u8)
    requires
        ppn % 512 == 0,
        ppn < 0x1000_0000_0000,
    ensures
        pte_bits_ppn(huge_pte_bits(ppn, flags)) == ppn,
        pte_bits_valid(huge_pte_bits(ppn, flags)),
{
    let f = (flags | FLAG_V) as u64;
    assert(f < 256 && f & 1u64 == 1) by (bit_vector)
        requires
            f == (flags | 1u8) as u64,
    ;
    assert((((((ppn >> 18u64) << 28u64) | (((ppn >> 9u64) & 0x1ffu64) << 19u64) | f) >> 10u64)
        & 0xfff_ffff_ffffu64) == ppn) by (bit_vector)
        requires
            ppn % 512 == 0,
            ppn < 0x1000_0000_0000,
            f < 256,
    ;
    assert(((((ppn >> 18u64) << 28u64) | (((ppn >> 9u64) & 0x1ffu64) << 19u64) | f) & 1u64) != 0)
        by (bit_vector)
        requires
            f & 1u64 == 1,
    ;
}

/// The flags of a 2 MiB entry are the flags it was asked for with V added, whatever the page
/// number.
pub proof fn law_huge_pte_flags(ppn: u64, flags: u8)
    ensures
        pte_bits_flags(huge_pte_bits(ppn, flags)) == flags | FLAG_V,
{
    let f = (flags | FLAG_V) as u64;
    assert(f < 256) by (bit_vector)
        requires
            f == (flags | 1u8) as u64,
    ;
    assert(((((ppn >> 18u64) << 28u64) | (((ppn >> 9u64) & 0x1ffu64) << 19u64) | f) & 0xffu64) == f) by (bit_vector)
        requires
            f < 256,
    ;
    assert((f as u8) == flags | FLAG_V) by (bit_vector)
        requires
            f == (flags | 1u8) as u64,
    ;
}

impl PageTable {
    /// Maps the 2 MiB region at `vpn` to the 2 MiB region at `ppn` with one leaf entry in a
    /// level-1 table, creating that table if needed.
    pub fn map_huge(
        &mut self,
        mem: &mut PhysMem,
        allocator: &mut FrameAllocator,
        vpn: VirtPageNum,
        ppn: PhysPageNum,
        flags: PTEFlags,
    )
        requires
            vpn.0 % 512 == 0,
            ppn.0 % 512 == 0,
            !v0(old(mem), old(self).root_ppn.0, vpn_index0(vpn.0)) ==> {
                &&& tree_wf(old(mem), old(self).root_ppn.0)
                &&& alloc_ok_for(old(mem), old(self).root_ppn.0, old(allocator)@)
                &&& old(allocator)@.aligned_count() >= 1
            },
            v0(old(mem), old(self).root_ppn.0, vpn_index0(vpn.0)) ==> l1(old(mem), old(self).root_ppn.0, vpn_index0(vpn.0))
                != old(self).root_ppn.0,
            !v1(old(mem), old(self).root_ppn.0, vpn_index0(vpn.0), vpn_index1(vpn.0)),
        ensures
            final(self).root_ppn == old(self).root_ppn,
            v0(final(mem), final(self).root_ppn.0, vpn_index0(vpn.0)),
            entry_at(
                final(mem),
                l1(final(mem), final(self).root_ppn.0, vpn_index0(vpn.0)),
                vpn_index1(vpn.0),
            ) == huge_pte_bits(ppn.0, flags@),
            v0(old(mem), old(self).root_ppn.0, vpn_index0(vpn.0)) ==> {
                let t = l1(old(mem), old(self).root_ppn.0, vpn_index0(vpn.0));
                &&& final(self).frames@ == old(self).frames@
                &&& final(allocator)@ == old(allocator)@
                &&& l1(final(mem), final(self).root_ppn.0, vpn_index0(vpn.0)) == t
                &&& forall|p: u64| p != t ==> #[trigger] final(mem).frame(p) == old(mem).frame(p)
                &&& forall|k: u64| k < 512 && k != vpn_index1(vpn.0) ==> #[trigger] entry_at(final(mem), t, k) == entry_at(old(mem), t, k)
            },
            !v0(old(mem), old(self).root_ppn.0, vpn_index0(vpn.0)) ==> {
                let t = l1(final(mem), final(self).root_ppn.0, vpn_index0(vpn.0));
                &&& final(self).frames@ == old(self).frames@.push(PhysPageNum(t))
                &&& alloc_shrinks(old(allocator)@, final(allocator)@)
                &&& old(allocator)@.is_free(t)
                &&& !final(allocator)@.is_free(t)
                &&& forall|x: u64| #[trigger] final(allocator)@.is_free(x) <==> (old(allocator)@.is_free(x) && x != t)
                &&& forall|p: u64| p != t && p != old(self).root_ppn.0 ==> #[trigger] final(mem).frame(p) == old(mem).frame(p)
            },
            tree_wf(old(mem), old(self).root_ppn.0) ==> forall|v: u64|
                vpn_index0(v) != vpn_index0(vpn.0) ==> #[trigger] walk(final(mem), final(self).root_ppn.0, v) == walk(
                    old(mem),
                    old(self).root_ppn.0,
                    v,
                ),
    {
        let idxs = vpn.indexes();
        let root_ppn = self.root_ppn;
        let ghost root = root_ppn.0;
        let ghost m0 = *mem;
        let ghost i = vpn_index0(vpn.0);
        let ghost j = vpn_index1(vpn.0);
        proof {
            lemma_vpn_indexes(vpn.0);
        }
        let e0 = PageTableEntry { bits: mem.read_word(root_ppn, idxs[0] as usize) };
        if !e0.is_valid() {
            let frame = Self::new_table(mem, allocator, Ghost(root)).unwrap();
            let ghost m1 = *mem;
            proof {
                lemma_agree_on_tree(&m0, &m1, root);
            }
            mem.write_word(root_ppn, idxs[0] as usize, PageTableEntry::new(frame, PTEFlags::V()).bits);
            self.frames.push(frame);
            proof {
                lemma_attach_root(&m1, mem, root, i, frame.0);
            }
        }
        let ghost m2 = *mem;
        let l1_ppn = PageTableEntry { bits: mem.read_word(root_ppn, idxs[0] as usize) }.ppn();
        proof {
            assert(v0(&m2, root, i));
            assert(l1_ppn.0 == l1(&m2, root, i));
            assert(l1_ppn.0 != root);
            lemma_zero_pte();
        }
        let ppn_val = ppn.0;
        let huge_bits = ((ppn_val >> 18) << 28) | (((ppn_val >> 9) & 0x1FF) << 19)
            | (flags.bits() | PTEFlags::V().bits()) as u64;
        mem.write_word(l1_ppn, idxs[1] as usize, huge_bits);
        proof {
            m2.lemma_frame_len(l1_ppn.0);
            assert(v0(mem, root, i));
            if tree_wf(&m0, root) {
                assert(tree_wf(&m2, root));
                assert forall|v: u64| vpn_index0(v) != i implies #[trigger] walk(mem, root, v) == walk(&m2, root, v) by {
                    lemma_vpn_indexes(v);
                    let a = vpn_index0(v);
                    let b = vpn_index1(v);
                    if v0(&m2, root, a) {
                        assert(l1(&m2, root, a) != l1_ppn.0);
                        if v1(&m2, root, a, b) {
                            assert(l0(&m2, root, a, b) != l1_ppn.0);
                        }
                    }
                }
            }
        }
    }
}

// ---------------------------------------------------------------------------------------
// Reading user memory through a page table.
/// The byte at user address `va` under `root`, when the page of `va` is mapped.
pub open spec fn user_byte(m: &PhysMem, root: u64, va: u64) -> Option<u8> {
    match translate_va_spec(m, root, va) {
        Some(pa) => Some(m.byte(pa.0)),
        None => None,
    }
}

/// A readable byte that is not zero.
pub open spec fn is_nonzero_byte(o: Option<u8>) -> bool {
    o is Some && o->0 != 0
}

/// User memory at `ptr` holds a string of `n` non-zero bytes followed by a zero byte.
pub open spec fn is_c_str(m: &PhysMem, root: u64, ptr: u64, n: nat) -> bool {
    &&& ptr + n <= u64::MAX
    &&& forall|k: nat| k < n ==> is_nonzero_byte(#[trigger] user_byte(m, root, (ptr + k) as u64))
    &&& user_byte(m, root, (ptr + n) as u64) == Some(0u8)
}

/// The characters of the string of `n` bytes at user address `ptr`.
pub open spec fn c_str_chars(m: &PhysMem, root: u64, ptr: u64, n: nat) -> Seq<char> {
    Seq::new(n, |k: int| (user_byte(m, root, (ptr + k) as u64)->0) as char)
}

/// The pieces `(physical address, length)` into which the user buffer `[start, end)` falls,
/// one per page it touches.
pub open spec fn buffer_chunks(m: &PhysMem, root: u64, start: u64, end: u64) -> Seq<(PhysAddr, u64)>
    decreases end - start,
{
    if start >= end {
        Seq::empty()
    } else {
        let page_end = (start / 4096 + 1) * 4096;
        let stop = if page_end < end { page_end } else { end as int };
        let len = stop - start;
        seq![(translate_va_spec(m, root, start)->0, len as u64)].add(
            buffer_chunks(m, root, (start + len) as u64, end),
        )
    }
}

/// The total length of the pieces.
pub open spec fn chunks_total(c: Seq<(PhysAddr, u64)>) -> int
    decreases c.len(),
{
    if c.len() == 0 {
        0
    } else {
        c[0].1 + chunks_total(c.subrange(1, c.len() as int))
    }
}

/// The pieces of a user buffer cover it exactly: their lengths add up to the buffer's
/// length, and each piece holds between 1 and 4096 bytes.
pub proof fn law_buffer_chunks_cover(m: &PhysMem, root: u64, start: u64, end: u64)
    requires
        start <= end,
    ensures
        chunks_total(buffer_chunks(m, root, start, end)) == end - start,
        forall|i: int|
            0 <= i < buffer_chunks(m, root, start, end).len() ==> 0 < (#[trigger] buffer_chunks(m, root, start, end)[i]).1 <= 4096,
    decreases end - start,
{
    if start < end {
        let page_end = (start / 4096 + 1) * 4096;
        let stop = if page_end < end { page_end } else { end as int };
        let len = stop - start;
        let next = (start + len) as u64;
        law_buffer_chunks_cover(m, root, next, end);
        let c = buffer_chunks(m, root, start, end);
        let rest = buffer_chunks(m, root, next, end);
        assert(c.subrange(1, c.len() as int) =~= rest);
        assert forall|i: int| 0 <= i < c.len() implies 0 < (#[trigger] c[i]).1 <= 4096 by {
            if i > 0 {
                assert(c[i] == rest[i - 1]);
            }
        }
    }
}

/// Each piece of a user buffer stays inside one page and starts where the user's bytes before
/// it end: piece `i` holds the user bytes `[v, v + len)` with `v` the buffer's start plus the
/// lengths of the pieces before it, `v` and `v + len - 1` lie in one page, and the piece's
/// physical address is the translation of `v`.
pub proof fn law_buffer_chunks_in_pages(m: &PhysMem, root: u64, start: u64, end: u64)
    requires
        start <= end,
    ensures
        forall|i: int|
            #![trigger buffer_chunks(m, root, start, end)[i]]
            0 <= i < buffer_chunks(m, root, start, end).len() ==> {
                let c = buffer_chunks(m, root, start, end);
                let v = start + chunks_total(c.subrange(0, i));
                let len = c[i].1;
                &&& 1 <= len
                &&& v / 4096 == (v + len - 1) / 4096
                &&& v + len <= end
                &&& c[i].0 == translate_va_spec(m, root, v as u64)->0
            },
    decreases end - start,
{
    if start < end {
        let page_end = (start / 4096 + 1) * 4096;
        let stop = if page_end < end { page_end } else { end as int };
        let len0 = stop - start;
        let next = (start + len0) as u64;
        law_buffer_chunks_in_pages(m, root, next, end);
        law_buffer_chunks_cover(m, root, next, end);
        let c = buffer_chunks(m, root, start, end);
        let rest = buffer_chunks(m, root, next, end);
        assert(c.subrange(1, c.len() as int) =~= rest);
        assert forall|i: int| #![trigger c[i]] 0 <= i < c.len() implies {
            let v = start + chunks_total(c.subrange(0, i));
            let len = c[i].1;
            &&& 1 <= len
            &&& v / 4096 == (v + len - 1) / 4096
            &&& v + len <= end
            &&& c[i].0 == translate_va_spec(m, root, v as u64)->0
        } by {
            if i == 0 {
                assert(c.subrange(0, 0) =~= Seq::<(PhysAddr, u64)>::empty());
                assert(chunks_total(c.subrange(0, 0)) == 0);
            } else {
                let s = c.subrange(0, i);
                assert(s.subrange(1, s.len() as int) =~= rest.subrange(0, i - 1));
                assert(chunks_total(s) == len0 + chunks_total(rest.subrange(0, i - 1)));
                assert(c[i] == rest[i - 1]);
            }
        }
    }
}

/// A wrapper for `String::push`.
#[verifier::external_body]
fn push_char(s: &mut String, c: char)
    ensures
        final(s)@ == old(s)@.push(c),
{
    s.push(c);
}

/// Reads the zero-terminated string at user address `ptr` of the address space that
/// `token` selects.
pub fn translated_str(mem: &PhysMem, token: u64, ptr: u64) -> (r: String)
    requires
        exists|n: nat| is_c_str(mem, token & 0xfff_ffff_ffffu64, ptr, n),
    ensures
        forall|n: nat| is_c_str(mem, token & 0xfff_ffff_ffffu64, ptr, n) ==> r@ == c_str_chars(mem, token & 0xfff_ffff_ffffu64, ptr, n),
{
    let page_table = PageTable::from_token(token);
    let ghost root = page_table.root_ppn.0;
    let ghost n = choose|n: nat| is_c_str(mem, root, ptr, n);
    let mut string = String::new();
    let mut va = ptr;
    loop
        invariant
            root == page_table.root_ppn.0,
            is_c_str(mem, root, ptr, n),
            ptr <= va <= ptr + n,
            string@ == c_str_chars(mem, root, ptr, (va - ptr) as nat),
        ensures
            string@ == c_str_chars(mem, root, ptr, n),
        decreases ptr + n - va,
    {
        proof {
            let k = (va - ptr) as nat;
            if va < ptr + n {
                assert(is_nonzero_byte(user_byte(mem, root, (ptr + k) as u64)));
            } else {
                assert(user_byte(mem, root, (ptr + n) as u64) == Some(0u8));
            }
            assert((ptr + k) as u64 == va);
        }
        let pa = page_table.translate_va(mem, VirtAddr(va)).unwrap();
        let ch: u8 = mem.read_byte(pa);
        if ch == 0 {
            break;
        } else {
            push_char(&mut string, ch as char);
            proof {
                assert(string@ =~= c_str_chars(mem, root, ptr, (va + 1 - ptr) as nat));
            }
            va = va + 1;
        }
    }
    proof {
        assert forall|n2: nat| is_c_str(mem, root, ptr, n2) implies string@ == c_str_chars(mem, root, ptr, n2) by {
            lemma_c_str_unique(mem, root, ptr, n, n2);
        }
    }
    string
}

proof fn lemma_c_str_unique(m: &PhysMem, root: u64, ptr: u64, n1: nat, n2: nat)
    requires
        is_c_str(m, root, ptr, n1),
        is_c_str(m, root, ptr, n2),
    ensures
        n1 == n2,
{
    if n1 < n2 {
        assert(is_nonzero_byte(user_byte(m, root, (ptr + n1) as u64)));
    } else if n2 < n1 {
        assert(is_nonzero_byte(user_byte(m, root, (ptr + n2) as u64)));
    }
}

/// The physical address that user address `ptr` of the address space that `token` selects
/// translates to (where the kernel finds the object `ptr` points to).
pub fn translated_refmut(mem: &PhysMem, token: u64, ptr: u64) -> (r: PhysAddr)
    requires
        translate_va_spec(mem, token & 0xfff_ffff_ffffu64, ptr) is Some,
    ensures
        Some(r) == translate_va_spec(mem, token & 0xfff_ffff_ffffu64, ptr),
{
    let page_table = PageTable::from_token(token);
    page_table.translate_va(mem, VirtAddr(ptr)).unwrap()
}

/// The physical pieces of the user buffer of `len` bytes at `ptr`, one per page.
pub fn translated_byte_buffer(mem: &PhysMem, token: u64, ptr: u64, len: u64) -> (r: Vec<(PhysAddr, u64)>)
    requires
        len == 0 || ptr + len <= 0xffff_ffff_ffff_f000,
        forall|k: u64| ptr <= k < ptr + len ==> #[trigger] translate_va_spec(mem, token & 0xfff_ffff_ffffu64, k) is Some,
    ensures
        r@ == buffer_chunks(mem, token & 0xfff_ffff_ffffu64, ptr, (ptr + len) as u64),
{
    let page_table = PageTable::from_token(token);
    let ghost root = page_table.root_ppn.0;
    let mut v: Vec<(PhysAddr, u64)> = Vec::new();
    let mut start = ptr;
    let end = ptr + len;
    while start < end
        invariant
            root == page_table.root_ppn.0,
            ptr <= start,
            end == ptr + len,
            len == 0 || end <= 0xffff_ffff_ffff_f000,
            start <= end || len == 0,
            forall|k: u64| ptr <= k < ptr + len ==> #[trigger] translate_va_spec(mem, root, k) is Some,
            v@ + buffer_chunks(mem, root, start, end) == buffer_chunks(mem, root, ptr, end),
        decreases end - start,
    {
        let page_end = (start / 4096 + 1) * 4096;
        let stop = if page_end < end { page_end } else { end };
        let chunk_len = stop - start;
        let pa = page_table.translate_va(mem, VirtAddr(start)).unwrap();
        v.push((pa, chunk_len));
        proof {
            let rest = buffer_chunks(mem, root, (start + chunk_len) as u64, end);
            assert(buffer_chunks(mem, root, start, end) == seq![(pa, chunk_len)].add(rest));
            assert(v@ + rest =~= (v@.drop_last() + seq![(pa, chunk_len)].add(rest)));
        }
        start = start + chunk_len;
    }
    proof {
        assert(buffer_chunks(mem, root, start, end) =~= Seq::<(PhysAddr, u64)>::empty());
        assert(v@ + Seq::<(PhysAddr, u64)>::empty() =~= v@);
    }
    v
}

// ---------------------------------------------------------------------------------------
// Laws.
/// Translating a page right after mapping it gives the frame and the flags (with V) it was
/// mapped with.
pub proof fn law_map_then_translate(m: &PhysMem, root: u64, vpn: u64, ppn: u64, flags: u8)
    requires
        walk(m, root, vpn) is None,
        ppn < 0x1000_0000_0000,
    ensures
        walk_after_map(m, root, vpn, ppn, flags, vpn) == Some(mapped_pte(ppn, flags)),
        pte_bits_ppn(mapped_pte(ppn, flags).bits) == ppn,
        crate::pte::pte_bits_flags(mapped_pte(ppn, flags).bits) == flags | FLAG_V,
{
    law_pte_roundtrip(ppn, flags | FLAG_V);
}

/// Mapping a page that is already mapped changes nothing.
pub proof fn law_map_mapped_is_noop(m: &PhysMem, root: u64, vpn: u64, ppn: u64, flags: u8, v: u64)
    requires
        walk(m, root, vpn) is Some,
    ensures
        walk_after_map(m, root, vpn, ppn, flags, v) == walk(m, root, v),
{
}

/// Unmapping a page that was just mapped gives back every walk as it was before the map.
pub proof fn law_unmap_undoes_map(m1: &PhysMem, m2: &PhysMem, m3: &PhysMem, root: u64, vpn: u64, ppn: u64, flags: u8)
    requires
        walk(m1, root, vpn) is None,
        forall|v: u64| #[trigger] walk(m2, root, v) == walk_after_map(m1, root, vpn, ppn, flags, v),
        forall|v: u64| #[trigger] walk(m3, root, v) == walk_after_unmap(m2, root, vpn, v),
    ensures
        forall|v: u64| #[trigger] walk(m3, root, v) == walk(m1, root, v),
{
    assert forall|v: u64| #[trigger] walk(m3, root, v) == walk(m1, root, v) by {
        assert(walk(m2, root, v) == walk_after_map(m1, root, vpn, ppn, flags, v));
        if vpn_sv39(v) == vpn_sv39(vpn) {
            lemma_vpn_indexes_eq(v, vpn);
        }
    }
}

/// Two virtual page numbers with the same low 27 bits share one slot of the table.
pub proof fn law_walk_uses_sv39_bits(m: &PhysMem, root: u64, a: u64, b: u64)
    requires
        vpn_sv39(a) == vpn_sv39(b),
    ensures
        walk(m, root, a) == walk(m, root, b),
{
    lemma_vpn_indexes_eq(a, b);
}

/// The page table that the `satp` value of a page table selects has the same root, when the
/// root fits the 44 bits of a page number.
pub proof fn law_token_roundtrip(root: u64)
    requires
        root < 0x1000_0000_0000,
    ensures
        satp_of(root) & 0xfff_ffff_ffffu64 == root,
        satp_of(root) >> 60u64 == 8,
{
    assert(((8u64 << 60u64) | root) & 0xfff_ffff_ffffu64 == root) by (bit_vector)
        requires
            root < 0x1000_0000_0000,
    ;
    assert(((8u64 << 60u64) | root) >> 60u64 == 8) by (bit_vector)
        requires
            root < 0x1000_0000_0000,
    ;
}

/// A translated address keeps the offset inside the page.
pub proof fn law_translate_keeps_offset(m: &PhysMem, root: u64, va: u64)
    requires
        translate_va_spec(m, root, va) is Some,
    ensures
        (translate_va_spec(m, root, va)->0).0 % 4096 == va % 4096,
        (translate_va_spec(m, root, va)->0).0 / 4096 == pte_bits_ppn(walk(m, root, va / 4096)->0.bits),
{
    let e = walk(m, root, va / 4096)->0;
    let b = e.bits;
    crate::pte::lemma_pte_ppn_bound(b);
}

// ---------------------------------------------------------------------------------------
// Composing the effects of several operations.
/// The tree of `m2` holds the tree of `m1`, and anything new in it was handed out by the
/// allocator in between.
pub open spec fn tree_extends(
    m1: &PhysMem,
    m2: &PhysMem,
    root: u64,
    a1: FrameAllocState,
    a2: FrameAllocState,
) -> bool {
    &&& forall|p: u64| #[trigger] in_tree(m1, root, p) ==> in_tree(m2, root, p)
    &&& forall|p: u64|
        #[trigger] in_tree(m2, root, p) ==> (in_tree(m1, root, p) || (a1.is_free(p) && !a2.is_free(p)))
}

/// Two steps of allocation and table growth make one.
pub proof fn lemma_compose_steps(
    m0: &PhysMem,
    m1: &PhysMem,
    m2: &PhysMem,
    root: u64,
    a0: FrameAllocState,
    a1: FrameAllocState,
    a2: FrameAllocState,
)
    requires
        alloc_shrinks(a0, a1),
        alloc_shrinks(a1, a2),
        tree_extends(m0, m1, root, a0, a1),
        tree_extends(m1, m2, root, a1, a2),
        changed_only(m0, m1, root, a0, a1),
        changed_only(m1, m2, root, a1, a2),
    ensures
        alloc_shrinks(a0, a2),
        tree_extends(m0, m2, root, a0, a2),
        changed_only(m0, m2, root, a0, a2),
{
    assert forall|p: u64|
        !in_tree(m0, root, p) && !(a0.is_free(p) && !a2.is_free(p)) implies #[trigger] m2.frame(p)
        == m0.frame(p) by {
        assert(m1.frame(p) == m0.frame(p));
        assert(!in_tree(m1, root, p));
    }
}

/// A step that keeps the allocator inside the free set keeps it away from the tree.
pub proof fn lemma_alloc_ok_step(
    m1: &PhysMem,
    m2: &PhysMem,
    root: u64,
    a1: FrameAllocState,
    a2: FrameAllocState,
)
    requires
        alloc_ok_for(m1, root, a1),
        alloc_shrinks(a1, a2),
        tree_extends(m1, m2, root, a1, a2),
    ensures
        alloc_ok_for(m2, root, a2),
{
    assert forall|p: u64| #[trigger] a2.is_free(p) implies !in_tree(m2, root, p) by {
        assert(a1.is_free(p));
    }
}

/// Distinct page numbers less than 2^27 apart use distinct slots.
pub proof fn lemma_distinct_slots(start: u64, j: u64, k: u64)
    requires
        j < k,
        k < 0x800_0000,
        start + k <= u64::MAX,
    ensures
        vpn_sv39((start + j) as u64) != vpn_sv39((start + k) as u64),
{
    lemma_vpn_indexes((start + j) as u64);
    lemma_vpn_indexes((start + k) as u64);
}

} // verus!
