//! The processor: the process it runs, and the idle context the scheduler loop runs in.
use vstd::prelude::*;

use crate::page_table::satp_of;
use crate::phys_mem::PhysMem;
use crate::frame::{FrameAllocState, FrameAllocator};
use crate::memory_set::{owned_data_frames, frames_recyclable};
use crate::process::{stored_trap_cx, trap_cx_words, TaskControlBlock, TaskControlBlockInner, TaskStatus};
use crate::task::{zero_context, TaskContext};
use crate::trap::TrapContext;

verus! {

/// The processor: the process it runs, if any, and the context of the scheduler loop.
pub struct Processor {
    pub current: Option<TaskControlBlock>,
    pub idle_task_cx: TaskContext,
}

impl Processor {
    /// A processor that runs nothing.
    pub fn new() -> (r: Processor)
        ensures
            r.current is None,
            r.idle_task_cx == zero_context(),
    {
        Processor { current: None, idle_task_cx: TaskContext::zero_init() }
    }

    /// Takes the running process away from the processor.
    pub fn take_current(&mut self) -> (r: Option<TaskControlBlock>)
        ensures
            r == old(self).current,
            final(self).current is None,
            final(self).idle_task_cx == old(self).idle_task_cx,
    {
        self.current.take()
    }

    /// The running process, if any.
    pub fn current(&self) -> (r: Option<&TaskControlBlock>)
        ensures
            r is Some <==> self.current is Some,
            r matches Some(t) ==> *t == self.current->0,
    {
        match &self.current {
            Some(t) => Some(t),
            None => None,
        }
    }

    /// One round of the scheduler loop with the process `task` fetched: the process is
    /// marked running and becomes the running one. Returns the context to switch to and the
    /// physical address of the process's trap context (for `sscratch`).
    pub fn run_task(&mut self, task: TaskControlBlock) -> (r: (TaskContext, u64))
        requires
            task.inner.trap_cx_ppn.0 < 0x10_0000_0000_0000,
        ensures
            final(self).current is Some,
            final(self).current->0.pid == task.pid,
            final(self).current->0.kernel_stack == task.kernel_stack,
            final(self).current->0.inner.task_status == TaskStatus::Running,
            final(self).current->0.inner.task_cx == task.inner.task_cx,
            final(self).current->0.inner.trap_cx_ppn == task.inner.trap_cx_ppn,
            final(self).current->0.inner.memory_set == task.inner.memory_set,
            final(self).current->0.inner.base_size == task.inner.base_size,
            final(self).current->0.inner.parent == task.inner.parent,
            final(self).current->0.inner.children@ == task.inner.children@,
            final(self).current->0.inner.exit_code == task.inner.exit_code,
            final(self).idle_task_cx == old(self).idle_task_cx,
            r == (task.inner.task_cx, (task.inner.trap_cx_ppn.0 * 4096) as u64),
    {
        let mut task = task;
        task.inner.task_status = TaskStatus::Running;
        let next_task_cx = task.inner.task_cx;
        let trap_cx_pa = task.inner.trap_cx_ppn.0 * crate::config::PAGE_SIZE;
        self.current = Some(task);
        (next_task_cx, trap_cx_pa)
    }
}

/// Takes the running process away from the processor.
pub fn take_current_task(processor: &mut Processor) -> (r: Option<TaskControlBlock>)
    ensures
        r == old(processor).current,
        final(processor).current is None,
        final(processor).idle_task_cx == old(processor).idle_task_cx,
{
    processor.take_current()
}

/// The running process, if any.
pub fn current_task(processor: &Processor) -> (r: Option<&TaskControlBlock>)
    ensures
        r is Some <==> processor.current is Some,
        r matches Some(t) ==> *t == processor.current->0,
{
    processor.current()
}

/// The `satp` of the running process's address space.
pub fn current_user_token(processor: &Processor) -> (r: u64)
    requires
        processor.current is Some,
    ensures
        r == satp_of(processor.current->0.inner.memory_set.page_table.root_ppn.0),
{
    let task = current_task(processor).unwrap();
    task.inner_exclusive_access().get_user_token()
}

/// The trap context of the running process.
pub fn current_trap_cx(processor: &Processor, mem: &PhysMem) -> (r: TrapContext)
    requires
        processor.current is Some,
    ensures
        trap_cx_words(r) == stored_trap_cx(mem, processor.current->0.inner.trap_cx_ppn.0),
{
    let task = current_task(processor).unwrap();
    task.inner_exclusive_access().get_trap_cx(mem)
}

/// The process `t` with its parent set to `parent`.
pub open spec fn with_parent(t: TaskControlBlock, parent: Option<u64>) -> TaskControlBlock {
    TaskControlBlock { inner: TaskControlBlockInner { parent, ..t.inner }, ..t }
}

/// Whether `pid` is in `pids`.
fn has_pid(pids: &Vec<u64>, pid: u64) -> (r: bool)
    ensures
        r == pids@.contains(pid),
{
    let mut i: usize = 0;
    while i < pids.len()
        invariant
            i <= pids@.len(),
            forall|j: int| 0 <= j < i ==> pids@[j] != pid,
        decreases pids@.len() - i,
    {
        if pids[i] == pid {
            proof {
                assert(pids@[i as int] == pid);
            }
            return true;
        }
        i = i + 1;
    }
    false
}

/// Ends the running process with `exit_code`: it becomes a zombie holding the code, its
/// children pass to the init process `initproc` (each of them among `others` gets the init
/// process as its parent), and the frames of its user areas go back to the allocator. The
/// processor is left without a current process, to switch to the next one; the zombie is
/// given back for its parent to reap.
pub fn exit_current_and_run_next(
    processor: &mut Processor,
    exit_code: i32,
    initproc: &mut TaskControlBlock,
    others: &mut Vec<TaskControlBlock>,
    allocator: &mut FrameAllocator,
) -> (r: TaskControlBlock)
    requires
        old(processor).current is Some,
        frames_recyclable(old(processor).current->0.inner.memory_set.areas@, old(allocator)@),
    ensures
        final(processor).current is None,
        final(processor).idle_task_cx == old(processor).idle_task_cx,
        ({
            let t = old(processor).current->0;
            &&& r.pid == t.pid
            &&& r.kernel_stack == t.kernel_stack
            &&& r.inner.task_status == TaskStatus::Zombie
            &&& r.inner.exit_code == exit_code
            &&& r.inner.children@ == Seq::<u64>::empty()
            &&& r.inner.memory_set.areas@ == Seq::<crate::map_area::MapArea>::empty()
            &&& r.inner.memory_set.page_table == t.inner.memory_set.page_table
            &&& r.inner.trap_cx_ppn == t.inner.trap_cx_ppn
            &&& r.inner.base_size == t.inner.base_size
            &&& r.inner.task_cx == t.inner.task_cx
            &&& r.inner.parent == t.inner.parent
            &&& final(allocator)@ == (FrameAllocState {
                recycled: old(allocator)@.recycled + owned_data_frames(t.inner.memory_set.areas@),
                ..old(allocator)@
            })
            &&& final(initproc).inner.children@ == old(initproc).inner.children@ + t.inner.children@
            &&& final(initproc).pid == old(initproc).pid
            &&& final(initproc).kernel_stack == old(initproc).kernel_stack
            &&& final(initproc).inner.trap_cx_ppn == old(initproc).inner.trap_cx_ppn
            &&& final(initproc).inner.base_size == old(initproc).inner.base_size
            &&& final(initproc).inner.task_cx == old(initproc).inner.task_cx
            &&& final(initproc).inner.task_status == old(initproc).inner.task_status
            &&& final(initproc).inner.memory_set == old(initproc).inner.memory_set
            &&& final(initproc).inner.parent == old(initproc).inner.parent
            &&& final(initproc).inner.exit_code == old(initproc).inner.exit_code
            &&& final(others)@.len() == old(others)@.len()
            &&& forall|i: int| 0 <= i < old(others)@.len() ==> #[trigger] final(others)@[i] == (if t.inner.children@.contains(
                old(others)@[i].pid.0,
            ) {
                with_parent(old(others)@[i], Some(old(initproc).pid.0))
            } else {
                old(others)@[i]
            })
        }),
        old(allocator)@.wf() ==> final(allocator)@.wf(),
{
    let mut task = processor.take_current().unwrap();
    let ghost t = task;
    task.inner.task_status = TaskStatus::Zombie;
    task.inner.exit_code = exit_code;
    let ghost c0 = initproc.inner.children@;
    let mut k: usize = 0;
    while k < task.inner.children.len()
        invariant
            k <= task.inner.children@.len(),
            task.inner.children@ == t.inner.children@,
            initproc.inner.children@ == c0 + t.inner.children@.subrange(0, k as int),
            initproc.pid == old(initproc).pid,
            initproc.kernel_stack == old(initproc).kernel_stack,
            initproc.inner.trap_cx_ppn == old(initproc).inner.trap_cx_ppn,
            initproc.inner.base_size == old(initproc).inner.base_size,
            initproc.inner.task_cx == old(initproc).inner.task_cx,
            initproc.inner.task_status == old(initproc).inner.task_status,
            initproc.inner.memory_set == old(initproc).inner.memory_set,
            initproc.inner.parent == old(initproc).inner.parent,
            initproc.inner.exit_code == old(initproc).inner.exit_code,
        decreases task.inner.children@.len() - k,
    {
        let child = task.inner.children[k];
        initproc.inner.children.push(child);
        proof {
            assert(initproc.inner.children@ =~= c0 + t.inner.children@.subrange(0, k + 1));
        }
        k = k + 1;
    }
    proof {
        assert(t.inner.children@.subrange(0, t.inner.children@.len() as int) =~= t.inner.children@);
    }
    let init_pid = initproc.pid.0;
    let ghost o0 = others@;
    let mut i: usize = 0;
    while i < others.len()
        invariant
            i <= others@.len(),
            others@.len() == o0.len(),
            task.inner.children@ == t.inner.children@,
            init_pid == old(initproc).pid.0,
            forall|j: int| 0 <= j < i ==> #[trigger] others@[j] == (if t.inner.children@.contains(o0[j].pid.0) {
                with_parent(o0[j], Some(init_pid))
            } else {
                o0[j]
            }),
            forall|j: int| i <= j < o0.len() ==> #[trigger] others@[j] == o0[j],
        decreases o0.len() - i,
    {
        if has_pid(&task.inner.children, others[i].pid.0) {
            let mut c = others.remove(i);
            c.inner.parent = Some(init_pid);
            others.insert(i, c);
            proof {
                assert(others@[i as int] == with_parent(o0[i as int], Some(init_pid)));
            }
        }
        i = i + 1;
    }
    task.inner.children = Vec::new();
    task.inner.memory_set.recycle_data_pages(allocator);
    task
}

/// Whether child pid `p` is one that `waitpid(pid, ..)` waits for: any child for -1.
pub open spec fn pid_matches(pid: i64, p: u64) -> bool {
    pid == -1 || pid == p as int
}

/// Whether `procs` holds a zombie with pid `p`.
pub open spec fn reapable(procs: Seq<TaskControlBlock>, p: u64) -> bool {
    exists|i: int| 0 <= i < procs.len() && #[trigger] procs[i].pid.0 == p && procs[i].inner.task_status == TaskStatus::Zombie
}

/// `children[k]` is the first child waited for that is a zombie, and `procs[i]` the first
/// zombie with its pid.
pub open spec fn reaped_at(children: Seq<u64>, procs: Seq<TaskControlBlock>, pid: i64, k: int, i: int) -> bool {
    &&& 0 <= k < children.len()
    &&& pid_matches(pid, children[k])
    &&& 0 <= i < procs.len()
    &&& procs[i].pid.0 == children[k]
    &&& procs[i].inner.task_status == TaskStatus::Zombie
    &&& forall|j: int| 0 <= j < k ==> !(pid_matches(pid, #[trigger] children[j]) && reapable(procs, children[j]))
    &&& forall|m: int| 0 <= m < i ==> !(#[trigger] procs[m].pid.0 == children[k] && procs[m].inner.task_status == TaskStatus::Zombie)
}

/// The first zombie with pid `p` in `procs`, if any.
fn find_zombie(procs: &Vec<TaskControlBlock>, p: u64) -> (r: Option<usize>)
    ensures
        r is None ==> !reapable(procs@, p),
        r matches Some(i) ==> 0 <= i < procs@.len() && procs@[i as int].pid.0 == p && procs@[i as int].inner.task_status
            == TaskStatus::Zombie && forall|m: int| 0 <= m < i ==> !(#[trigger] procs@[m].pid.0 == p
            && procs@[m].inner.task_status == TaskStatus::Zombie),
{
    let mut i: usize = 0;
    while i < procs.len()
        invariant
            i <= procs@.len(),
            forall|m: int| 0 <= m < i ==> !(#[trigger] procs@[m].pid.0 == p && procs@[m].inner.task_status == TaskStatus::Zombie),
        decreases procs@.len() - i,
    {
        if procs[i].pid.0 == p && procs[i].inner.is_zombie() {
            return Some(i);
        }
        i = i + 1;
    }
    None
}

/// Waits for a child of `parent` (any child for `pid == -1`, else the child with that pid):
/// -1 when there is no such child; -2 when none of them has exited yet; otherwise the first
/// such child (in `parent`'s order) that is a zombie in `procs` is reaped — it leaves the
/// children of `parent` and `procs` — and its pid and exit code are given.
pub fn waitpid(parent: &mut TaskControlBlock, procs: &mut Vec<TaskControlBlock>, pid: i64) -> (r: (i64, i32))
    requires
        forall|k: int| 0 <= k < old(parent).inner.children@.len() ==> #[trigger] old(parent).inner.children@[k] <= i64::MAX,
    ensures
        final(parent).pid == old(parent).pid,
        final(parent).kernel_stack == old(parent).kernel_stack,
        final(parent).inner.trap_cx_ppn == old(parent).inner.trap_cx_ppn,
        final(parent).inner.base_size == old(parent).inner.base_size,
        final(parent).inner.task_cx == old(parent).inner.task_cx,
        final(parent).inner.task_status == old(parent).inner.task_status,
        final(parent).inner.memory_set == old(parent).inner.memory_set,
        final(parent).inner.parent == old(parent).inner.parent,
        final(parent).inner.exit_code == old(parent).inner.exit_code,
        ({
            let ch = old(parent).inner.children@;
            let ps = old(procs)@;
            &&& (r.0 == -1) == !(exists|k: int| 0 <= k < ch.len() && pid_matches(pid, #[trigger] ch[k]))
            &&& r.0 == -2 ==> (forall|k: int| 0 <= k < ch.len() && pid_matches(pid, #[trigger] ch[k]) ==> !reapable(ps, ch[k]))
            &&& r.0 < 0 ==> r.0 == -1 || r.0 == -2
            &&& r.0 < 0 ==> final(parent).inner.children@ == ch && final(procs)@ == ps && r.1 == 0
            &&& r.0 >= 0 ==> exists|k: int, i: int| #[trigger] reaped_at(ch, ps, pid, k, i) && r.0 == ch[k] && r.1 == ps[i].inner.exit_code
                && final(parent).inner.children@ == ch.remove(k) && final(procs)@ == ps.remove(i)
        }),
{
    let ghost ch = parent.inner.children@;
    let ghost ps = procs@;
    let n = parent.inner.children.len();
    let mut any = false;
    let mut k: usize = 0;
    while k < n
        invariant
            n == ch.len(),
            *parent == *old(parent),
            ch == old(parent).inner.children@,
            ps == old(procs)@,
            parent.inner.children@ == ch,
            procs@ == ps,
            k <= n,
            forall|j: int| 0 <= j < ch.len() ==> #[trigger] ch[j] <= i64::MAX,
            any == (exists|j: int| 0 <= j < k && pid_matches(pid, #[trigger] ch[j])),
            forall|j: int| 0 <= j < k ==> !(pid_matches(pid, #[trigger] ch[j]) && reapable(ps, ch[j])),
        decreases n - k,
    {
        let c = parent.inner.children[k];
        if pid == -1 || pid == c as i64 {
            proof {
                assert(pid_matches(pid, ch[k as int]));
            }
            match find_zombie(procs, c) {
                Some(i) => {
                    let child = procs.remove(i);
                    parent.inner.children.remove(k);
                    proof {
                        assert(reaped_at(ch, ps, pid, k as int, i as int));
                        assert(parent.inner.children@ =~= ch.remove(k as int));
                        assert(procs@ =~= ps.remove(i as int));
                        assert(child == ps[i as int]);
                        assert((c as i64) as int == ch[k as int]);
                    }
                    return (c as i64, child.inner.exit_code);
                },
                None => {
                    any = true;
                },
            }
        } else {
            proof {
                assert(!pid_matches(pid, ch[k as int]));
            }
        }
        k = k + 1;
    }
    if any {
        (-2, 0)
    } else {
        (-1, 0)
    }
}

} // verus!
