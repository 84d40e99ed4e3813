//! Half-open ranges of virtual page numbers.
use vstd::prelude::*;

use crate::address::VirtPageNum;

verus! {

/// The virtual pages `[start, end)`.
#[derive(Clone, Copy, PartialEq, Eq, Structural, Debug)]
pub struct VpnRange {
    pub start: VirtPageNum,
    pub end: VirtPageNum,
}

/// The page numbers `[start, end)` in increasing order.
pub open spec fn vpn_seq(start: u64, end: u64) -> Seq<VirtPageNum> {
    Seq::new(if start < end { (end - start) as nat } else { 0 }, |k: int| VirtPageNum((start + k) as u64))
}

impl VpnRange {
    /// The number of pages in the range.
    pub open spec fn len(self) -> nat {
        if self.start.0 < self.end.0 {
            (self.end.0 - self.start.0) as nat
        } else {
            0
        }
    }

    /// The range `[start, end)`.
    pub fn new(start: VirtPageNum, end: VirtPageNum) -> (r: VpnRange)
        ensures
            r.start == start,
            r.end == end,
    {
        VpnRange { start, end }
    }

    /// The first page of the range.
    pub fn get_start(&self) -> (r: VirtPageNum)
        ensures
            r == self.start,
    {
        self.start
    }

    /// The page just past the range.
    pub fn get_end(&self) -> (r: VirtPageNum)
        ensures
            r == self.end,
    {
        self.end
    }

    /// The pages of the range in increasing order.
    pub fn iter(&self) -> (r: Vec<VirtPageNum>)
        ensures
            r@ == vpn_seq(self.start.0, self.end.0),
    {
        let mut v: Vec<VirtPageNum> = Vec::new();
        let mut p = self.start.0;
        while p < self.end.0
            invariant
                self.start.0 <= p,
                p <= self.end.0 || p == self.start.0,
                v@ == vpn_seq(self.start.0, p),
            decreases self.end.0 - p,
        {
            v.push(VirtPageNum(p));
            p = p + 1;
            proof {
                assert(v@ =~= vpn_seq(self.start.0, p));
            }
        }
        proof {
            assert(v@ =~= vpn_seq(self.start.0, self.end.0));
        }
        v
    }
}

} // verus!
