//! Process identifiers: handed out from a recycled stack first, then counting up.
use vstd::prelude::*;

use crate::process::PidHandle;

verus! {

/// The abstract state of a pid allocator.
pub struct PidAllocState {
    /// The first pid never handed out.
    pub current: u64,
    /// Pids given back, in the order they were given back.
    pub recycled: Seq<u64>,
}

impl PidAllocState {
    /// Every recycled pid was handed out before, and none is recycled twice.
    pub open spec fn wf(self) -> bool {
        &&& forall|i: int| 0 <= i < self.recycled.len() ==> #[trigger] self.recycled[i] < self.current
        &&& self.recycled.no_duplicates()
    }

    /// Whether pid `p` belongs to a process.
    pub open spec fn in_use(self, p: u64) -> bool {
        p < self.current && !self.recycled.contains(p)
    }

    /// Whether one more pid can be handed out.
    pub open spec fn can_alloc(self) -> bool {
        self.recycled.len() > 0 || self.current < u64::MAX
    }
}

/// The allocator of process identifiers.
pub struct PidAllocator {
    current: u64,
    recycled: Vec<u64>,
}

impl View for PidAllocator {
    type V = PidAllocState;

    closed spec fn view(&self) -> PidAllocState {
        PidAllocState { current: self.current, recycled: self.recycled@ }
    }
}

impl PidAllocator {
    /// An allocator that has handed out no pid.
    pub fn new() -> (r: PidAllocator)
        ensures
            r@.current == 0,
            r@.recycled == Seq::<u64>::empty(),
            r@.wf(),
    {
        PidAllocator { current: 0, recycled: Vec::new() }
    }

    /// Hands out the most recently given back pid, else the next new one. The pid was in use
    /// by no process and now is; no other pid changes.
    pub fn allocate(&mut self) -> (r: PidHandle)
        requires
            old(self)@.wf(),
            old(self)@.can_alloc(),
        ensures
            final(self)@.wf(),
            !old(self)@.in_use(r.0),
            final(self)@.in_use(r.0),
            forall|p: u64| p != r.0 ==> #[trigger] final(self)@.in_use(p) == old(self)@.in_use(p),
            old(self)@.recycled.len() > 0 ==> r.0 == old(self)@.recycled.last(),
            old(self)@.recycled.len() == 0 ==> r.0 == old(self)@.current,
    {
        let ghost s0 = self@;
        if let Some(pid) = self.recycled.pop() {
            proof {
                assert(s0.recycled.drop_last().push(pid) =~= s0.recycled);
                assert(s0.recycled[s0.recycled.len() - 1] == pid);
                assert forall|p: u64| p != pid implies #[trigger] self@.in_use(p) == s0.in_use(p) by {
                    if s0.recycled.contains(p) {
                        let k = choose|k: int| 0 <= k < s0.recycled.len() && s0.recycled[k] == p;
                        assert(self@.recycled[k] == p);
                    }
                    if self@.recycled.contains(p) {
                        let k = choose|k: int| 0 <= k < self@.recycled.len() && self@.recycled[k] == p;
                        assert(s0.recycled[k] == p);
                    }
                }
                if self@.recycled.contains(pid) {
                    let k = choose|k: int| 0 <= k < self@.recycled.len() && self@.recycled[k] == pid;
                    assert(s0.recycled[k] == pid);
                }
            }
            PidHandle(pid)
        } else {
            let pid = self.current;
            self.current = self.current + 1;
            proof {
                if self@.recycled.contains(pid) {
                    let k = choose|k: int| 0 <= k < self@.recycled.len() && self@.recycled[k] == pid;
                }
            }
            PidHandle(pid)
        }
    }

    /// Takes back a pid in use.
    pub fn dealloc(&mut self, pid: PidHandle)
        requires
            old(self)@.wf(),
            old(self)@.in_use(pid.0),
        ensures
            final(self)@.wf(),
            !final(self)@.in_use(pid.0),
            forall|p: u64| p != pid.0 ==> #[trigger] final(self)@.in_use(p) == old(self)@.in_use(p),
    {
        let ghost s0 = self@;
        self.recycled.push(pid.0);
        proof {
            assert(self@.recycled[s0.recycled.len() as int] == pid.0);
            assert forall|p: u64| p != pid.0 implies #[trigger] self@.in_use(p) == s0.in_use(p) by {
                if self@.recycled.contains(p) {
                    let k = choose|k: int| 0 <= k < self@.recycled.len() && self@.recycled[k] == p;
                    assert(k < s0.recycled.len());
                    assert(s0.recycled[k] == p);
                }
                if s0.recycled.contains(p) {
                    let k = choose|k: int| 0 <= k < s0.recycled.len() && s0.recycled[k] == p;
                    assert(self@.recycled[k] == p);
                }
            }
            assert(self@.recycled.no_duplicates()) by {
                assert forall|i: int, j: int| 0 <= i < j < self@.recycled.len() implies self@.recycled[i] != self@.recycled[j] by {
                    if j == s0.recycled.len() {
                        assert(s0.recycled.contains(s0.recycled[i]));
                    }
                }
            }
        }
    }
}

/// Hands out a pid.
pub fn pid_alloc(pids: &mut PidAllocator) -> (r: PidHandle)
    requires
        old(pids)@.wf(),
        old(pids)@.can_alloc(),
    ensures
        final(pids)@.wf(),
        !old(pids)@.in_use(r.0),
        final(pids)@.in_use(r.0),
        forall|p: u64| p != r.0 ==> #[trigger] final(pids)@.in_use(p) == old(pids)@.in_use(p),
{
    pids.allocate()
}

} // verus!
