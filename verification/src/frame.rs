//! The physical frame allocator: frames are handed out from a recycled stack first, then
//! from the untouched range `[current, end)`.
use vstd::prelude::*;

use crate::address::PhysPageNum;

verus! {

/// The abstract state of a frame allocator.
pub struct FrameAllocState {
    /// The first page number never handed out.
    pub current: u64,
    /// One past the last page number that may be handed out.
    pub end: u64,
    /// Page numbers given back, in the order they were given back.
    pub recycled: Seq<u64>,
}

impl FrameAllocState {
    /// Every recycled frame was handed out before (it lies below `current`), and none is
    /// recycled twice.
    pub open spec fn wf(self) -> bool {
        &&& forall|i: int| 0 <= i < self.recycled.len() ==> #[trigger] self.recycled[i] < self.current
        &&& self.recycled.no_duplicates()
    }

    /// Whether a frame may still be handed out.
    pub open spec fn is_free(self, p: u64) -> bool {
        self.recycled.contains(p) || (self.current <= p && p < self.end)
    }

    /// Whether an allocation succeeds.
    pub open spec fn can_alloc(self) -> bool {
        self.recycled.len() > 0 || self.current < self.end
    }

    /// The number of 2 MiB-aligned frames (page numbers that are multiples of 512) in
    /// `[current, end)`.
    pub open spec fn aligned_count(self) -> int {
        if self.current < self.end {
            (self.end + 511) / 512 - (self.current + 511) / 512
        } else {
            0
        }
    }

    /// The state after one allocation, and the frame handed out.
    pub open spec fn alloc_spec(self) -> (FrameAllocState, Option<u64>) {
        if self.recycled.len() > 0 {
            (
                FrameAllocState { recycled: self.recycled.drop_last(), ..self },
                Some(self.recycled.last()),
            )
        } else if self.current < self.end {
            (FrameAllocState { current: (self.current + 1) as u64, ..self }, Some(self.current))
        } else {
            (self, None)
        }
    }

    /// The state after giving back frame `p`.
    pub open spec fn dealloc_spec(self, p: u64) -> FrameAllocState {
        FrameAllocState { recycled: self.recycled.push(p), ..self }
    }

    /// Whether giving back frame `p` is accepted: it was handed out and is not free already.
    pub open spec fn dealloc_ok(self, p: u64) -> bool {
        p < self.current && !self.recycled.contains(p)
    }
}

/// The frames `[from, to)` in increasing order.
pub open spec fn frame_run(from: u64, to: u64) -> Seq<u64>
    decreases to - from,
{
    if from >= to {
        Seq::empty()
    } else {
        seq![from].add(frame_run((from + 1) as u64, to))
    }
}

/// The page number inside an optional frame.
pub open spec fn ppn_opt(r: Option<PhysPageNum>) -> Option<u64> {
    match r {
        Some(p) => Some(p.0),
        None => None,
    }
}

/// Whether a page number is not a multiple of 512.
pub open spec fn unaligned(q: u64) -> bool {
    q % 512 != 0
}

/// The first multiple of 512 at or after `p`.
pub open spec fn next_aligned(p: u64) -> int {
    ((p + 511) / 512) * 512
}

/// The allocator for physical frames.
pub struct FrameAllocator {
    current: u64,
    end: u64,
    recycled: Vec<u64>,
}

impl View for FrameAllocator {
    type V = FrameAllocState;

    closed spec fn view(&self) -> FrameAllocState {
        FrameAllocState { current: self.current, end: self.end, recycled: self.recycled@ }
    }
}

impl FrameAllocator {
    /// An allocator with nothing to hand out.
    pub fn new() -> (r: FrameAllocator)
        ensures
            r@.current == 0,
            r@.end == 0,
            r@.recycled == Seq::<u64>::empty(),
            r@.wf(),
    {
        FrameAllocator { current: 0, end: 0, recycled: Vec::new() }
    }

    /// Hands out the frames `[start, end)` (after the recycled ones).
    pub fn init(&mut self, start: PhysPageNum, end: PhysPageNum)
        ensures
            final(self)@ == (FrameAllocState { current: start.0, end: end.0, ..old(self)@ }),
            (old(self)@.wf() && forall|i: int|
                0 <= i < old(self)@.recycled.len() ==> #[trigger] old(self)@.recycled[i] < start.0)
                ==> final(self)@.wf(),
    {
        self.current = start.0;
        self.end = end.0;
    }

    /// Hands out the most recently recycled frame, else the next untouched one, else
    /// nothing.
    pub fn allocate(&mut self) -> (r: Option<PhysPageNum>)
        ensures
            (final(self)@, ppn_opt(r)) == old(self)@.alloc_spec(),
            old(self)@.wf() ==> final(self)@.wf(),
    {
        if let Some(ppn) = self.recycled.pop() {
            Some(PhysPageNum(ppn))
        } else if self.current < self.end {
            let ppn = PhysPageNum(self.current);
            self.current = self.current + 1;
            Some(ppn)
        } else {
            None
        }
    }

    /// Hands out `n` consecutive untouched frames and gives the first, or nothing (and changes
    /// nothing) when fewer than `n` untouched frames are left.
    pub fn alloc_contiguous(&mut self, n: u64) -> (r: Option<PhysPageNum>)
        ensures
            old(self)@.current < old(self)@.end && old(self)@.end - old(self)@.current >= n ==> {
                &&& r == Some(PhysPageNum(old(self)@.current))
                &&& final(self)@ == (FrameAllocState { current: (old(self)@.current + n) as u64, ..old(self)@ })
            },
            !(old(self)@.current < old(self)@.end && old(self)@.end - old(self)@.current >= n) ==> r is None
                && final(self)@ == old(self)@,
            old(self)@.wf() ==> final(self)@.wf(),
    {
        if self.current < self.end && self.end - self.current >= n {
            let p = self.current;
            self.current = self.current + n;
            Some(PhysPageNum(p))
        } else {
            None
        }
    }

    /// Whether at least `n` untouched frames are left (as `alloc_contiguous(n)` needs).
    pub fn has_untouched(&self, n: u64) -> (r: bool)
        ensures
            r == (self@.current < self@.end && self@.end - self@.current >= n),
    {
        self.current < self.end && self.end - self.current >= n
    }

    /// Whether at least `n` frames can still be handed out.
    pub fn has_free(&self, n: u64) -> (r: bool)
        ensures
            r == (crate::task::free_count(self@) >= n),
    {
        let fresh: u64 = if self.current < self.end { self.end - self.current } else { 0 };
        if fresh >= n {
            true
        } else {
            (self.recycled.len() as u64) >= n - fresh
        }
    }

    /// Takes back a frame that was handed out and is not free.
    pub fn dealloc(&mut self, ppn: PhysPageNum)
        requires
            old(self)@.dealloc_ok(ppn.0),
        ensures
            final(self)@ == old(self)@.dealloc_spec(ppn.0),
            old(self)@.wf() ==> final(self)@.wf(),
    {
        let ppn_val = ppn.0;
        self.recycled.push(ppn_val);
    }

    /// Hands out the next untouched frame whose page number is a multiple of 512 (a 2 MiB
    /// aligned frame, as the intermediate page tables of Sv39 need); the untouched frames
    /// skipped on the way are recycled for data pages.
    pub fn alloc_pte_frame(&mut self) -> (r: Option<PhysPageNum>)
        ensures
            old(self)@.wf() ==> final(self)@.wf(),
            final(self)@.end == old(self)@.end,
            r is Some <==> old(self)@.aligned_count() > 0,
            r is Some ==> {
                let p = (r->0).0;
                &&& p == next_aligned(old(self)@.current)
                &&& p % 512 == 0
                &&& final(self)@.current == p + 1
                &&& final(self)@.recycled == old(self)@.recycled + frame_run(old(self)@.current, p)
                &&& final(self)@.aligned_count() == old(self)@.aligned_count() - 1
            },
            r is None ==> {
                &&& old(self)@.current < old(self)@.end ==> final(self)@.current == old(self)@.end
                &&& old(self)@.current >= old(self)@.end ==> final(self)@.current == old(
                    self,
                )@.current
                &&& final(self)@.recycled == old(self)@.recycled + frame_run(
                    old(self)@.current,
                    final(self)@.current,
                )
                &&& final(self)@.aligned_count() == 0
            },
    {
        let ghost start = self.current;
        let ghost old_rec = self.recycled@;
        while self.current < self.end
            invariant
                self.end == old(self)@.end,
                start == old(self)@.current,
                start <= self.current,
                self.current <= self.end || self.current == start,
                self.recycled@ == old_rec + frame_run(start, self.current),
                old_rec == old(self)@.recycled,
                forall|q: u64| start <= q < self.current ==> #[trigger] unaligned(q),
                old(self)@.wf() ==> self@.wf(),
            decreases self.end - self.current,
        {
            let ppn = PhysPageNum(self.current);
            self.current = self.current + 1;
            proof {
                lemma_frame_run_snoc(start, ppn.0);
            }
            if ppn.0 & 0x1FF == 0 {
                proof {
                    let p = ppn.0;
                    assert(p & 0x1ffu64 == p % 512) by (bit_vector);
                    lemma_next_aligned(start, p);
                    lemma_aligned_count_run(start, p, self.end);
                }
                return Some(ppn);
            }
            proof {
                let p = ppn.0;
                assert(p & 0x1ffu64 == p % 512) by (bit_vector);
                lemma_frame_run_bounds(start, p);
            }
            self.recycled.push(ppn.0);
            proof {
                assert(self.recycled@ == old_rec + frame_run(start, self.current));
                if old(self)@.wf() {
                    lemma_frame_run_fresh(old_rec, start, ppn.0, old(self)@.current);
                }
            }
        }
        proof {
            lemma_no_aligned_count(start, self.current, self.end);
        }
        None
    }
}

proof fn lemma_frame_run_snoc(from: u64, to: u64)
    requires
        from <= to,
        to < u64::MAX,
    ensures
        frame_run(from, (to + 1) as u64) == frame_run(from, to).push(to),
    decreases to - from,
{
    if from < to {
        lemma_frame_run_snoc((from + 1) as u64, to);
        assert(frame_run(from, (to + 1) as u64) =~= seq![from].add(
            frame_run((from + 1) as u64, (to + 1) as u64),
        ));
        assert(frame_run(from, to) =~= seq![from].add(frame_run((from + 1) as u64, to)));
        assert(seq![from].add(frame_run((from + 1) as u64, to).push(to)) =~= seq![from].add(
            frame_run((from + 1) as u64, to),
        ).push(to));
    } else {
        assert(frame_run((to + 1) as u64, (to + 1) as u64) =~= Seq::<u64>::empty());
        assert(frame_run(from, (to + 1) as u64) =~= seq![to]);
    }
}

proof fn lemma_frame_run_bounds(from: u64, to: u64)
    ensures
        frame_run(from, to).len() == (if from < to { to - from } else { 0 }),
        forall|i: int|
            0 <= i < frame_run(from, to).len() ==> #[trigger] frame_run(from, to)[i] == from + i,
    decreases to - from,
{
    if from < to {
        lemma_frame_run_bounds((from + 1) as u64, to);
    }
}

proof fn lemma_frame_run_fresh(old_rec: Seq<u64>, start: u64, p: u64, cur: u64)
    requires
        start == cur,
        start <= p,
        forall|i: int| 0 <= i < old_rec.len() ==> #[trigger] old_rec[i] < cur,
        old_rec.no_duplicates(),
    ensures
        (old_rec + frame_run(start, (p + 1) as u64)).no_duplicates(),
        forall|i: int|
            0 <= i < (old_rec + frame_run(start, (p + 1) as u64)).len() ==> #[trigger] (old_rec
                + frame_run(start, (p + 1) as u64))[i] < p + 1,
{
    lemma_frame_run_bounds(start, (p + 1) as u64);
    let s = old_rec + frame_run(start, (p + 1) as u64);
    assert forall|i: int, j: int| 0 <= i < s.len() && 0 <= j < s.len() && i != j implies s[i]
        != s[j] by {
        if i < old_rec.len() && j < old_rec.len() {
        } else if i >= old_rec.len() && j >= old_rec.len() {
            assert(s[i] == frame_run(start, (p + 1) as u64)[i - old_rec.len()]);
            assert(s[j] == frame_run(start, (p + 1) as u64)[j - old_rec.len()]);
        } else if i < old_rec.len() {
            assert(s[j] == frame_run(start, (p + 1) as u64)[j - old_rec.len()]);
        } else {
            assert(s[i] == frame_run(start, (p + 1) as u64)[i - old_rec.len()]);
        }
    }
    assert forall|i: int| 0 <= i < s.len() implies #[trigger] s[i] < p + 1 by {
        if i >= old_rec.len() {
            assert(s[i] == frame_run(start, (p + 1) as u64)[i - old_rec.len()]);
        }
    }
}

proof fn lemma_next_aligned(start: u64, p: u64)
    requires
        start <= p,
        p % 512 == 0,
        forall|q: u64| start <= q < p ==> #[trigger] unaligned(q),
    ensures
        p == next_aligned(start),
{
    let n = next_aligned(start);
    assert(n >= start);
    assert(n % 512 == 0) by (nonlinear_arith)
        requires
            n == ((start + 511) / 512) * 512,
    ;
    assert(n < start + 512);
    if n < p {
        assert(n <= u64::MAX);
        let q = n as u64;
        assert(unaligned(q));
    }
    assert(p < start + 512 || p <= n) by {
        if p >= start + 512 {
            let q = n as u64;
            assert(start <= q < p);
        }
    }
}

proof fn lemma_aligned_count_run(start: u64, p: u64, e: u64)
    requires
        start <= p,
        p < e,
        p % 512 == 0,
        forall|q: u64| start <= q < p ==> #[trigger] unaligned(q),
    ensures
        (FrameAllocState { current: start, end: e, recycled: Seq::empty() }).aligned_count() - 1
            == (FrameAllocState { current: (p + 1) as u64, end: e, recycled: Seq::empty() }).aligned_count(),
        (FrameAllocState { current: start, end: e, recycled: Seq::empty() }).aligned_count() > 0,
{
    lemma_next_aligned(start, p);
}

proof fn lemma_no_aligned_count(start: u64, c: u64, e: u64)
    requires
        start <= c,
        c >= e,
        c <= e || c == start,
        forall|q: u64| start <= q < c ==> #[trigger] unaligned(q),
    ensures
        (FrameAllocState { current: start, end: e, recycled: Seq::empty() }).aligned_count() == 0,
{
    if start < e {
        let n = next_aligned(start);
        assert(n % 512 == 0 && n >= start && n < start + 512) by (nonlinear_arith)
            requires
                n == ((start + 511) / 512) * 512,
        ;
        if n < e {
            let q = n as u64;
            assert(start <= q < c);
            assert(unaligned(q));
        }
        assert((e + 511) / 512 <= (start + 511) / 512) by (nonlinear_arith)
            requires
                n == ((start + 511) / 512) * 512,
                n >= e,
        ;
    }
}

/// Hands `[start, end)` to the allocator.
pub fn init_frame_allocator(allocator: &mut FrameAllocator, start: PhysPageNum, end: PhysPageNum)
    ensures
        final(allocator)@ == (FrameAllocState { current: start.0, end: end.0, ..old(allocator)@ }),
        (old(allocator)@.wf() && forall|i: int|
            0 <= i < old(allocator)@.recycled.len() ==> #[trigger] old(allocator)@.recycled[i] < start.0)
            ==> final(allocator)@.wf(),
{
    allocator.init(start, end);
}

/// Allocates one frame.
pub fn frame_alloc(allocator: &mut FrameAllocator) -> (r: Option<PhysPageNum>)
    ensures
        (final(allocator)@, ppn_opt(r)) == old(allocator)@.alloc_spec(),
        old(allocator)@.wf() ==> final(allocator)@.wf(),
{
    allocator.allocate()
}

/// Allocates one 2 MiB-aligned frame for an intermediate page table.
pub fn alloc_pte_frame(allocator: &mut FrameAllocator) -> (r: Option<PhysPageNum>)
    ensures
        old(allocator)@.wf() ==> final(allocator)@.wf(),
        final(allocator)@.end == old(allocator)@.end,
        r is Some <==> old(allocator)@.aligned_count() > 0,
        r is Some ==> {
            let p = (r->0).0;
            &&& p == next_aligned(old(allocator)@.current)
            &&& p % 512 == 0
            &&& final(allocator)@.current == p + 1
            &&& final(allocator)@.recycled == old(allocator)@.recycled + frame_run(old(allocator)@.current, p)
            &&& final(allocator)@.aligned_count() == old(allocator)@.aligned_count() - 1
        },
        r is None ==> {
            &&& old(allocator)@.current < old(allocator)@.end ==> final(allocator)@.current == old(allocator)@.end
            &&& old(allocator)@.current >= old(allocator)@.end ==> final(allocator)@.current == old(allocator)@.current
            &&& final(allocator)@.recycled == old(allocator)@.recycled + frame_run(
                old(allocator)@.current,
                final(allocator)@.current,
            )
            &&& final(allocator)@.aligned_count() == 0
        },
{
    allocator.alloc_pte_frame()
}

/// Gives a frame back.
pub fn frame_dealloc(allocator: &mut FrameAllocator, ppn: PhysPageNum)
    requires
        old(allocator)@.dealloc_ok(ppn.0),
    ensures
        final(allocator)@ == old(allocator)@.dealloc_spec(ppn.0),
        old(allocator)@.wf() ==> final(allocator)@.wf(),
{
    allocator.dealloc(ppn)
}

/// One allocation frees nothing and takes exactly the frame it hands out off the free set.
pub proof fn lemma_alloc_free_set(a: FrameAllocState)
    requires
        a.wf(),
    ensures
        ({
            let (a2, r) = a.alloc_spec();
            &&& a2.end == a.end
            &&& a2.current >= a.current
            &&& a2.aligned_count() >= a.aligned_count() - 1
            &&& r is Some <==> a.can_alloc()
            &&& r is Some ==> a.is_free(r->0)
            &&& forall|x: u64| #[trigger] a2.is_free(x) <==> (a.is_free(x) && Some(x) != r)
        }),
{
    let (a2, r) = a.alloc_spec();
    if a.recycled.len() > 0 {
        let l = a.recycled.last();
        assert(a.recycled.drop_last().push(l) =~= a.recycled);
        assert forall|x: u64| #[trigger] a2.is_free(x) <==> (a.is_free(x) && Some(x) != r) by {
            if a2.recycled.contains(x) {
                let k = choose|k: int| 0 <= k < a2.recycled.len() && a2.recycled[k] == x;
                assert(a.recycled[k] == x);
                assert(k != a.recycled.len() - 1);
            }
            if a.recycled.contains(x) && x != l {
                let k = choose|k: int| 0 <= k < a.recycled.len() && a.recycled[k] == x;
                assert(a2.recycled[k] == x);
            }
            if a.recycled.contains(x) {
                let k = choose|k: int| 0 <= k < a.recycled.len() && a.recycled[k] == x;
                assert(x < a.current);
            }
            if a2.recycled.contains(x) {
                let k = choose|k: int| 0 <= k < a2.recycled.len() && a2.recycled[k] == x;
                assert(a.recycled[k] == x);
                assert(x < a.current);
            }
        }
        assert(a.recycled.contains(l)) by {
            assert(a.recycled[a.recycled.len() - 1] == l);
        }
    } else if a.current < a.end {
        assert forall|x: u64| #[trigger] a2.is_free(x) <==> (a.is_free(x) && Some(x) != r) by {
            if a.recycled.contains(x) {
                let k = choose|k: int| 0 <= k < a.recycled.len() && a.recycled[k] == x;
            }
        }
    }
}

/// A frame just handed out may be given back, and giving it back makes free again exactly
/// the frames that were free before the allocation.
pub proof fn law_dealloc_undoes_alloc(a: FrameAllocState)
    requires
        a.wf(),
        a.can_alloc(),
    ensures
        ({
            let (a2, r) = a.alloc_spec();
            &&& a2.dealloc_ok(r->0)
            &&& a2.dealloc_spec(r->0).wf()
            &&& forall|x: u64| #[trigger] a2.dealloc_spec(r->0).is_free(x) == a.is_free(x)
        }),
{
    lemma_alloc_free_set(a);
    let (a2, r) = a.alloc_spec();
    let p = r->0;
    let a3 = a2.dealloc_spec(p);
    if a.recycled.len() > 0 {
        assert(a.recycled.drop_last().push(p) =~= a.recycled);
        assert(a.recycled[a.recycled.len() - 1] == p);
        if a2.recycled.contains(p) {
            let k = choose|k: int| 0 <= k < a2.recycled.len() && a2.recycled[k] == p;
            assert(a.recycled[k] == p);
        }
    } else {
        if a2.recycled.contains(p) {
            let k = choose|k: int| 0 <= k < a2.recycled.len() && a2.recycled[k] == p;
            assert(a.recycled[k] < a.current);
        }
    }
    assert forall|x: u64| #[trigger] a3.is_free(x) == a.is_free(x) by {
        if a3.recycled.contains(x) && x != p {
            let k = choose|k: int| 0 <= k < a3.recycled.len() && a3.recycled[k] == x;
            assert(k < a2.recycled.len());
            assert(a2.recycled[k] == x);
        }
        if a2.recycled.contains(x) {
            let k = choose|k: int| 0 <= k < a2.recycled.len() && a2.recycled[k] == x;
            assert(a3.recycled[k] == x);
        }
        assert(a3.recycled[a2.recycled.len() as int] == p);
    }
    assert forall|i: int| 0 <= i < a3.recycled.len() implies #[trigger] a3.recycled[i] < a3.current by {
        if i < a2.recycled.len() {
            assert(a3.recycled[i] == a2.recycled[i]);
        }
    }
    assert(a3.recycled.no_duplicates()) by {
        assert forall|i: int, j: int| 0 <= i < a3.recycled.len() && 0 <= j < a3.recycled.len() && i != j
            implies a3.recycled[i] != a3.recycled[j] by {
            if i < a2.recycled.len() && j < a2.recycled.len() {
                assert(a3.recycled[i] == a2.recycled[i] && a3.recycled[j] == a2.recycled[j]);
            } else if i < a2.recycled.len() {
                assert(a3.recycled[i] == a2.recycled[i]);
                assert(a2.recycled.contains(a2.recycled[i]));
            } else if j < a2.recycled.len() {
                assert(a3.recycled[j] == a2.recycled[j]);
                assert(a2.recycled.contains(a2.recycled[j]));
            }
        }
    }
}

/// The frame handed out for a page table was free and is the only frame that stops being
/// free; the frames skipped on the way stay free.
pub proof fn lemma_pte_alloc_free_set(a: FrameAllocState, a2: FrameAllocState, p: u64)
    requires
        a.wf(),
        a2.end == a.end,
        p == next_aligned(a.current),
        p < a.end,
        a2.current == p + 1,
        a2.recycled == a.recycled + frame_run(a.current, p),
    ensures
        a.is_free(p),
        forall|x: u64| #[trigger] a2.is_free(x) <==> (a.is_free(x) && x != p),
{
    lemma_frame_run_bounds(a.current, p);
    assert(p >= a.current) by (nonlinear_arith)
        requires
            p == ((a.current + 511) / 512) * 512,
    ;
    let run = frame_run(a.current, p);
    assert forall|x: u64| #[trigger] a2.is_free(x) <==> (a.is_free(x) && x != p) by {
        if a2.recycled.contains(x) {
            let k = choose|k: int| 0 <= k < a2.recycled.len() && a2.recycled[k] == x;
            if k < a.recycled.len() {
                assert(a.recycled[k] == x);
                assert(a.recycled.contains(x));
            } else {
                assert(run[k - a.recycled.len()] == x);
            }
        }
        if a.recycled.contains(x) {
            let k = choose|k: int| 0 <= k < a.recycled.len() && a.recycled[k] == x;
            assert(a2.recycled[k] == x);
            assert(x < a.current);
        }
        if a.current <= x && x < p {
            let k = x - a.current;
            assert(run[k] == x);
            assert(a2.recycled[a.recycled.len() + k] == x);
        }
    }
}

/// A failed search for an aligned frame moves the untouched frames to the recycled stack
/// and leaves the free set as it was.
pub proof fn lemma_pte_alloc_none_free_set(a: FrameAllocState, a2: FrameAllocState)
    requires
        a.wf(),
        a2.end == a.end,
        a.current < a.end ==> a2.current == a.end,
        a.current >= a.end ==> a2.current == a.current,
        a2.recycled == a.recycled + frame_run(a.current, a2.current),
    ensures
        forall|x: u64| #[trigger] a2.is_free(x) <==> a.is_free(x),
{
    lemma_frame_run_bounds(a.current, a2.current);
    let run = frame_run(a.current, a2.current);
    assert forall|x: u64| #[trigger] a2.is_free(x) <==> a.is_free(x) by {
        if a2.recycled.contains(x) {
            let k = choose|k: int| 0 <= k < a2.recycled.len() && a2.recycled[k] == x;
            if k < a.recycled.len() {
                assert(a.recycled[k] == x);
                assert(a.recycled.contains(x));
            } else {
                assert(run[k - a.recycled.len()] == x);
            }
        }
        if a.recycled.contains(x) {
            let k = choose|k: int| 0 <= k < a.recycled.len() && a.recycled[k] == x;
            assert(a2.recycled[k] == x);
        }
        if a.current <= x && x < a.end {
            let k = x - a.current;
            assert(run[k] == x);
            assert(a2.recycled[a.recycled.len() + k] == x);
        }
    }
}

} // verus!
