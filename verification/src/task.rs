//! Tasks of the multiprogramming kernel: their saved contexts, their kernel stacks, and the
//! round-robin choice of the next task to run.
use vstd::prelude::*;

use crate::address::PhysPageNum;
use crate::config::{KERNEL_STACK_SIZE, PAGE_SIZE, PAGE_SIZE_BITS, TRAMPOLINE, TRAP_CONTEXT_USER};
use crate::frame::{FrameAllocState, FrameAllocator};
use crate::memory_set::MemorySet;
use crate::page_table::satp_of;
use crate::phys_mem::PhysMem;
use crate::process::{app_init_words, load_trap_cx, store_trap_cx, stored_trap_cx, trap_cx_words};
use crate::trap::TrapContext;

verus! {

/// The state of a task.
#[derive(Clone, Copy, PartialEq, Eq, Structural, Debug)]
pub enum TaskStatus {
    Ready,
    Running,
    Exited,
}

/// The callee-saved registers that a task switch saves: `ra`, `sp` and `s0`..`s11`.
#[derive(Clone, Copy, PartialEq, Eq, Structural, Debug)]
pub struct TaskContext {
    pub ra: u64,
    pub sp: u64,
    pub s0: u64,
    pub s1: u64,
    pub s2: u64,
    pub s3: u64,
    pub s4: u64,
    pub s5: u64,
    pub s6: u64,
    pub s7: u64,
    pub s8: u64,
    pub s9: u64,
    pub s10: u64,
    pub s11: u64,
}

/// The context with every register zero.
pub open spec fn zero_context() -> TaskContext {
    TaskContext {
        ra: 0,
        sp: 0,
        s0: 0,
        s1: 0,
        s2: 0,
        s3: 0,
        s4: 0,
        s5: 0,
        s6: 0,
        s7: 0,
        s8: 0,
        s9: 0,
        s10: 0,
        s11: 0,
    }
}

/// The batch kernel's context with every register zero.
pub open spec fn zero_context_batch() -> crate::batch::TaskContext {
    crate::batch::TaskContext {
        ra: 0,
        sp: 0,
        s0: 0,
        s1: 0,
        s2: 0,
        s3: 0,
        s4: 0,
        s5: 0,
        s6: 0,
        s7: 0,
        s8: 0,
        s9: 0,
        s10: 0,
        s11: 0,
    }
}

impl TaskContext {
    /// The context with every register zero.
    pub fn zero_init() -> (r: TaskContext)
        ensures
            r == zero_context(),
    {
        TaskContext {
            ra: 0,
            sp: 0,
            s0: 0,
            s1: 0,
            s2: 0,
            s3: 0,
            s4: 0,
            s5: 0,
            s6: 0,
            s7: 0,
            s8: 0,
            s9: 0,
            s10: 0,
            s11: 0,
        }
    }

    /// The context that, when switched to, returns through the trampoline's restore code
    /// (at `restore_offset` inside the trampoline page) on the kernel stack `kstack_top`,
    /// with `s0` holding the physical address of the trap context page `trap_cx_ppn`.
    pub fn goto_trap_return(kstack_top: u64, trap_cx_ppn: PhysPageNum, restore_offset: u64) -> (r: TaskContext)
        requires
            restore_offset < 4096,
            trap_cx_ppn.0 < 0x10_0000_0000_0000,
        ensures
            r == (TaskContext { ra: (TRAMPOLINE + restore_offset) as u64, sp: kstack_top, s0: (trap_cx_ppn.0 * 4096) as u64, ..zero_context() }),
    {
        let trampoline_ra = TRAMPOLINE + restore_offset;
        let trap_cx_phys = trap_cx_ppn.0 * PAGE_SIZE;
        TaskContext {
            ra: trampoline_ra,
            sp: kstack_top,
            s0: trap_cx_phys,
            s1: 0,
            s2: 0,
            s3: 0,
            s4: 0,
            s5: 0,
            s6: 0,
            s7: 0,
            s8: 0,
            s9: 0,
            s10: 0,
            s11: 0,
        }
    }
}

/// The number of frames an allocator can still hand out.
pub open spec fn free_count(a: FrameAllocState) -> int {
    a.recycled.len() + if a.current < a.end { a.end - a.current } else { 0 }
}

/// The kernel stack of a task: `KERNEL_STACK_SIZE / PAGE_SIZE` frames starting at
/// `bottom_ppn`.
#[derive(Clone, Copy, PartialEq, Eq, Structural, Debug)]
pub struct KernelStack {
    pub bottom_ppn: u64,
}

impl KernelStack {
    /// Allocates the `KERNEL_STACK_SIZE / PAGE_SIZE` (four) frames of a kernel stack; the first
    /// one is its bottom. While four untouched frames are left it takes four consecutive ones
    /// from them; otherwise it takes four frames as the allocator hands them out.
    pub fn new(_pid: u64, allocator: &mut FrameAllocator) -> (r: KernelStack)
        requires
            free_count(old(allocator)@) >= 4,
        ensures
            old(allocator)@.current < old(allocator)@.end && old(allocator)@.end - old(allocator)@.current >= 4 ==> {
                &&& r.bottom_ppn == old(allocator)@.current
                &&& final(allocator)@ == (FrameAllocState { current: (old(allocator)@.current + 4) as u64, ..old(allocator)@ })
            },
            !(old(allocator)@.current < old(allocator)@.end && old(allocator)@.end - old(allocator)@.current >= 4) ==> {
                let s1 = old(allocator)@.alloc_spec();
                let s2 = s1.0.alloc_spec();
                let s3 = s2.0.alloc_spec();
                let s4 = s3.0.alloc_spec();
                &&& s1.1 == Some(r.bottom_ppn)
                &&& s2.1 is Some && s3.1 is Some && s4.1 is Some
                &&& final(allocator)@ == s4.0
            },
            old(allocator)@.wf() ==> final(allocator)@.wf(),
    {
        if allocator.has_untouched(KERNEL_STACK_SIZE / PAGE_SIZE) {
            let bottom = allocator.alloc_contiguous(KERNEL_STACK_SIZE / PAGE_SIZE).unwrap();
            KernelStack { bottom_ppn: bottom.0 }
        } else {
            let bottom = allocator.allocate().unwrap();
            let _second = allocator.allocate().unwrap();
            let _third = allocator.allocate().unwrap();
            let _fourth = allocator.allocate().unwrap();
            KernelStack { bottom_ppn: bottom.0 }
        }
    }

    /// The address just above the stack.
    pub fn top(&self) -> (r: u64)
        requires
            self.bottom_ppn < 0x10_0000_0000_0000 - 4,
        ensures
            r == self.bottom_ppn * 4096 + KERNEL_STACK_SIZE,
    {
        proof {
            crate::address::lemma_shl12(self.bottom_ppn);
        }
        (self.bottom_ppn << PAGE_SIZE_BITS) + KERNEL_STACK_SIZE
    }
}

/// A task of the multiprogramming kernel.
pub struct TaskControlBlock {
    pub task_status: TaskStatus,
    pub task_cx: TaskContext,
    /// The physical page of the task's trap context.
    pub trap_cx_ppn: u64,
    pub kernel_stack: KernelStack,
    pub memory_set: Option<MemorySet>,
}

impl TaskControlBlock {
    /// The physical address of the task's trap context (its page, offset 0).
    pub fn get_trap_cx_ptr(&self) -> (r: u64)
        ensures
            r == ((self.trap_cx_ppn as int) * 4096) % 0x1_0000_0000_0000_0000,
    {
        proof {
            crate::address::lemma_shl12(self.trap_cx_ppn);
        }
        self.trap_cx_ppn << PAGE_SIZE_BITS
    }

    /// The trap context the task traps with, read from its page.
    pub fn get_trap_cx(&self, mem: &PhysMem) -> (r: TrapContext)
        ensures
            trap_cx_words(r) == stored_trap_cx(mem, self.trap_cx_ppn),
    {
        load_trap_cx(mem, PhysPageNum(self.trap_cx_ppn))
    }

    /// The `satp` the task runs with: its own address space's, or the kernel's.
    pub fn get_user_satp(&self, kernel_space: &MemorySet) -> (r: u64)
        ensures
            r == (match self.memory_set {
                Some(ms) => satp_of(ms.page_table.root_ppn.0),
                None => satp_of(kernel_space.page_table.root_ppn.0),
            }),
    {
        match &self.memory_set {
            Some(ms) => ms.satp(),
            None => kernel_space.page_table.satp(),
        }
    }
}

/// The tasks and the index of the running one.
pub struct TaskManagerInner {
    pub tasks: Vec<TaskControlBlock>,
    pub current_task: usize,
}

/// The task manager of the multiprogramming kernel.
pub struct TaskManager {
    pub num_app: usize,
    pub inner: TaskManagerInner,
}

/// Whether the task `i` places after `current`, going round, is ready.
pub open spec fn ready_at(statuses: Seq<TaskStatus>, current: int, i: int) -> bool {
    statuses[(current + i) % (statuses.len() as int)] == TaskStatus::Ready
}

/// The first task after `current`, going round, whose status is `Ready`; `current` itself
/// comes last.
pub open spec fn next_ready(statuses: Seq<TaskStatus>, current: int) -> Option<int> {
    if exists|i: int| 1 <= i <= statuses.len() && #[trigger] ready_at(statuses, current, i) {
        let i = choose|i: int|
            1 <= i <= statuses.len() && #[trigger] ready_at(statuses, current, i) && forall|j: int|
                1 <= j < i ==> !#[trigger] ready_at(statuses, current, j);
        Some((current + i) % (statuses.len() as int))
    } else {
        None
    }
}

/// The statuses of the tasks.
pub open spec fn statuses(tasks: Seq<TaskControlBlock>) -> Seq<TaskStatus> {
    tasks.map_values(|t: TaskControlBlock| t.task_status)
}

proof fn lemma_next_ready_first(s: Seq<TaskStatus>, current: int, i: int)
    requires
        s.len() > 0,
        1 <= i <= s.len(),
        ready_at(s, current, i),
        forall|j: int| 1 <= j < i ==> !#[trigger] ready_at(s, current, j),
    ensures
        next_ready(s, current) == Some((current + i) % (s.len() as int)),
{
    let k = choose|k: int|
        1 <= k <= s.len() && #[trigger] ready_at(s, current, k) && forall|j: int|
            1 <= j < k ==> !#[trigger] ready_at(s, current, j);
    if k < i {
        assert(!ready_at(s, current, k));
    } else if k > i {
        assert(!ready_at(s, current, i));
    }
}

/// Going round `n` tasks from `current`, task `j` is `i` places on, with `1 <= i <= n`;
/// `i == n` exactly when `j` is the current task itself.
pub(crate) proof fn lemma_steps_to(n: int, current: int, j: int) -> (i: int)
    requires
        n > 0,
        0 <= j < n,
    ensures
        1 <= i <= n,
        (current + i) % n == j,
        (i == n) == (current % n == j),
{
    let k = (j - current) % n;
    vstd::arithmetic::div_mod::lemma_mod_bound(j - current, n);
    vstd::arithmetic::div_mod::lemma_add_mod_noop_right(current, j - current, n);
    vstd::arithmetic::div_mod::lemma_small_mod(j as nat, n as nat);
    vstd::arithmetic::div_mod::lemma_sub_mod_noop(j, current, n);
    vstd::arithmetic::div_mod::lemma_mod_bound(current, n);
    assert((current + k) % n == j);
    if k == 0 {
        vstd::arithmetic::div_mod::lemma_mod_add_multiples_vanish(current, n);
        assert((current + 0) % n == current % n);
        n
    } else {
        if current % n == j {
            assert(j - current % n == 0);
            assert((0int) % n == 0);
        }
        k
    }
}

/// Going round `n` tasks, a task less than a full round away is never the current one.
proof fn lemma_step_moves(n: int, current: int, i: int)
    requires
        n > 0,
        1 <= i < n,
    ensures
        (current + i) % n != current % n,
{
    let c = current % n;
    vstd::arithmetic::div_mod::lemma_mod_bound(current, n);
    vstd::arithmetic::div_mod::lemma_add_mod_noop(current, i, n);
    vstd::arithmetic::div_mod::lemma_small_mod(i as nat, n as nat);
    assert((current + i) % n == (c + i) % n);
    if c + i < n {
        vstd::arithmetic::div_mod::lemma_small_mod((c + i) as nat, n as nat);
    } else {
        vstd::arithmetic::div_mod::lemma_mod_add_multiples_vanish(c + i - n, n);
        vstd::arithmetic::div_mod::lemma_small_mod((c + i - n) as nat, n as nat);
    }
}

/// The task chosen next is a ready one; when none is chosen, no task is ready.
pub proof fn law_next_ready_is_ready(s: Seq<TaskStatus>, current: int)
    requires
        s.len() > 0,
    ensures
        next_ready(s, current) matches Some(i) ==> 0 <= i < s.len() && s[i] == TaskStatus::Ready,
        next_ready(s, current) is None ==> forall|j: int| 0 <= j < s.len() ==> s[j] != TaskStatus::Ready,
{
    let n = s.len() as int;
    if exists|i: int| 1 <= i <= n && #[trigger] ready_at(s, current, i) {
        let i = choose|i: int|
            1 <= i <= n && #[trigger] ready_at(s, current, i) && forall|j: int| 1 <= j < i ==> !#[trigger] ready_at(s, current, j);
        assert(exists|i: int|
            1 <= i <= n && #[trigger] ready_at(s, current, i) && forall|j: int| 1 <= j < i ==> !#[trigger] ready_at(s, current, j)) by {
            lemma_first_ready(s, current, n);
        }
        vstd::arithmetic::div_mod::lemma_mod_bound(current + i, n);
    } else {
        assert forall|j: int| 0 <= j < n implies s[j] != TaskStatus::Ready by {
            let i = lemma_steps_to(n, current, j);
            assert(!ready_at(s, current, i));
        }
    }
}

/// When some task is ready, a first one going round exists.
proof fn lemma_first_ready(s: Seq<TaskStatus>, current: int, k: int)
    requires
        s.len() > 0,
        1 <= k <= s.len(),
        exists|i: int| 1 <= i <= k && #[trigger] ready_at(s, current, i),
    ensures
        exists|i: int|
            1 <= i <= k && #[trigger] ready_at(s, current, i) && forall|j: int| 1 <= j < i ==> !#[trigger] ready_at(s, current, j),
    decreases k,
{
    if k > 1 && exists|i: int| 1 <= i <= k - 1 && #[trigger] ready_at(s, current, i) {
        lemma_first_ready(s, current, k - 1);
    } else {
        let i = choose|i: int| 1 <= i <= k && #[trigger] ready_at(s, current, i);
        assert(i == k || k == 1);
        assert(forall|j: int| 1 <= j < i ==> !#[trigger] ready_at(s, current, j));
    }
}

/// Round-robin gives the processor away whenever it can: if a task other than the current
/// one is ready, the task chosen next is not the current one.
pub proof fn law_round_robin_fair(s: Seq<TaskStatus>, current: int, j: int)
    requires
        s.len() > 0,
        0 <= j < s.len(),
        j != current % (s.len() as int),
        s[j] == TaskStatus::Ready,
    ensures
        next_ready(s, current) is Some,
        next_ready(s, current) != Some(current % (s.len() as int)),
{
    let n = s.len() as int;
    let k = lemma_steps_to(n, current, j);
    assert(ready_at(s, current, k));
    lemma_first_ready(s, current, n);
    let i = choose|i: int|
        1 <= i <= n && #[trigger] ready_at(s, current, i) && forall|j: int| 1 <= j < i ==> !#[trigger] ready_at(s, current, j);
    if i > k {
        assert(!ready_at(s, current, k));
    }
    lemma_step_moves(n, current, i);
}

impl TaskManager {
    /// A manager for `num_app` applications, with no task yet.
    pub fn new(num_app: usize) -> (r: TaskManager)
        ensures
            r.num_app == num_app,
            r.inner.tasks@ == Seq::<TaskControlBlock>::empty(),
            r.inner.current_task == 0,
    {
        TaskManager { num_app, inner: TaskManagerInner { tasks: Vec::with_capacity(num_app), current_task: 0 } }
    }

    /// What starting the first task needs: the address of its trap context in the user
    /// address space (the value for `sscratch`), and its task context to switch to.
    pub fn run_first_task(&self, mem: &PhysMem) -> (r: (u64, TaskContext))
        requires
            self.inner.tasks@.len() > 0,
        ensures
            r.0 == stored_trap_cx(mem, self.inner.tasks@[0].trap_cx_ppn)[38],
            r.1 == self.inner.tasks@[0].task_cx,
    {
        let task0 = &self.inner.tasks[0];
        let trap_cx_user = task0.get_trap_cx(mem).trap_cx_user;
        (trap_cx_user, task0.task_cx)
    }

    /// The next task to run: the first `Ready` one after the current one, going round.
    pub fn find_next_task(&self) -> (r: Option<usize>)
        requires
            self.inner.current_task + self.inner.tasks@.len() <= usize::MAX,
        ensures
            self.inner.tasks@.len() > 0 ==> r == match next_ready(statuses(self.inner.tasks@), self.inner.current_task as int) {
                Some(i) => Some(i as usize),
                None => None,
            },
            self.inner.tasks@.len() == 0 ==> r is None,
    {
        let current = self.inner.current_task;
        let n = self.inner.tasks.len();
        let ghost s = statuses(self.inner.tasks@);
        let mut k: usize = 0;
        while k < n
            invariant
                n == self.inner.tasks@.len(),
                s == statuses(self.inner.tasks@),
                current == self.inner.current_task,
                current + n <= usize::MAX,
                0 <= k <= n,
                forall|j: int| 1 <= j < k + 1 ==> !#[trigger] ready_at(s, current as int, j),
            decreases n - k,
        {
            let i = k + 1;
            let id = (current + i) % n;
            if self.inner.tasks[id].task_status == TaskStatus::Ready {
                proof {
                    lemma_next_ready_first(s, current as int, i as int);
                }
                return Some(id);
            }
            k = k + 1;
        }
        proof {
            if n > 0 {
                assert(!(exists|k: int| 1 <= k <= s.len() && #[trigger] ready_at(s, current as int, k)));
            }
        }
        None
    }

    /// Marks the running task as finished.
    pub fn mark_current_exited(&mut self)
        requires
            old(self).inner.current_task < old(self).inner.tasks@.len(),
        ensures
            final(self).num_app == old(self).num_app,
            final(self).inner.current_task == old(self).inner.current_task,
            final(self).inner.tasks@.len() == old(self).inner.tasks@.len(),
            statuses(final(self).inner.tasks@) == statuses(old(self).inner.tasks@).update(
                old(self).inner.current_task as int,
                TaskStatus::Exited,
            ),
    {
        let current = self.inner.current_task;
        self.set_status(current, TaskStatus::Exited);
    }

    /// Marks the running task as ready to run again.
    pub fn mark_current_suspended(&mut self)
        requires
            old(self).inner.current_task < old(self).inner.tasks@.len(),
        ensures
            final(self).num_app == old(self).num_app,
            final(self).inner.current_task == old(self).inner.current_task,
            final(self).inner.tasks@.len() == old(self).inner.tasks@.len(),
            statuses(final(self).inner.tasks@) == statuses(old(self).inner.tasks@).update(
                old(self).inner.current_task as int,
                TaskStatus::Ready,
            ),
    {
        let current = self.inner.current_task;
        self.set_status(current, TaskStatus::Ready);
    }

    fn set_status(&mut self, i: usize, status: TaskStatus)
        requires
            i < old(self).inner.tasks@.len(),
        ensures
            final(self).num_app == old(self).num_app,
            final(self).inner.current_task == old(self).inner.current_task,
            final(self).inner.tasks@.len() == old(self).inner.tasks@.len(),
            statuses(final(self).inner.tasks@) == statuses(old(self).inner.tasks@).update(i as int, status),
            forall|j: int| 0 <= j < old(self).inner.tasks@.len() && j != i ==> #[trigger] final(self).inner.tasks@[j] == old(self).inner.tasks@[j],
    {
        let mut t = self.inner.tasks.remove(i);
        t.task_status = status;
        self.inner.tasks.insert(i, t);
        proof {
            assert(statuses(self.inner.tasks@) =~= statuses(old(self).inner.tasks@).update(i as int, status));
        }
    }

    /// Picks the next task, marks it running and makes it current; gives the indexes of the
    /// tasks to switch from and to, or nothing when no task is ready (every application is
    /// done).
    #[verifier::rlimit(40)]
    pub fn run_next_task(&mut self) -> (r: Option<(usize, usize)>)
        requires
            old(self).inner.current_task + old(self).inner.tasks@.len() <= usize::MAX,
        ensures
            final(self).num_app == old(self).num_app,
            final(self).inner.tasks@.len() == old(self).inner.tasks@.len(),
            r is None ==> final(self).inner.tasks@ == old(self).inner.tasks@ && final(self).inner.current_task
                == old(self).inner.current_task && (old(self).inner.tasks@.len() == 0 || next_ready(
                statuses(old(self).inner.tasks@),
                old(self).inner.current_task as int,
            ) is None),
            r matches Some((from, to)) ==> {
                &&& from == old(self).inner.current_task
                &&& to == final(self).inner.current_task
                &&& old(self).inner.tasks@.len() > 0
                &&& next_ready(statuses(old(self).inner.tasks@), old(self).inner.current_task as int) == Some(to as int)
                &&& statuses(final(self).inner.tasks@) == statuses(old(self).inner.tasks@).update(to as int, TaskStatus::Running)
                &&& forall|j: int| 0 <= j < old(self).inner.tasks@.len() && j != to ==> #[trigger] final(self).inner.tasks@[j]
                    == old(self).inner.tasks@[j]
            },
    {
        match self.find_next_task() {
            Some(next_id) => {
                proof {
                    law_next_ready_is_ready(statuses(self.inner.tasks@), self.inner.current_task as int);
                }
                let cur = self.inner.current_task;
                self.set_status(next_id, TaskStatus::Running);
                self.inner.current_task = next_id;
                Some((cur, next_id))
            },
            None => None,
        }
    }
}

/// Marks the running task finished and picks the next one (the switch to perform).
pub fn exit_current_and_run_next(tm: &mut TaskManager) -> (r: Option<(usize, usize)>)
    requires
        old(tm).inner.current_task < old(tm).inner.tasks@.len(),
        old(tm).inner.current_task + old(tm).inner.tasks@.len() <= usize::MAX,
    ensures
        final(tm).inner.tasks@.len() == old(tm).inner.tasks@.len(),
        r is None ==> final(tm).inner.current_task == old(tm).inner.current_task && statuses(final(tm).inner.tasks@)
            == statuses(old(tm).inner.tasks@).update(old(tm).inner.current_task as int, TaskStatus::Exited) && next_ready(
            statuses(final(tm).inner.tasks@),
            old(tm).inner.current_task as int,
        ) is None,
        r matches Some((from, to)) ==> from == old(tm).inner.current_task && to == final(tm).inner.current_task
            && next_ready(
            statuses(old(tm).inner.tasks@).update(old(tm).inner.current_task as int, TaskStatus::Exited),
            old(tm).inner.current_task as int,
        ) == Some(to as int) && statuses(final(tm).inner.tasks@) == statuses(old(tm).inner.tasks@).update(
            old(tm).inner.current_task as int,
            TaskStatus::Exited,
        ).update(to as int, TaskStatus::Running),
{
    tm.mark_current_exited();
    tm.run_next_task()
}

/// Marks the running task ready and picks the next one (the switch to perform).
pub fn suspend_current_and_run_next(tm: &mut TaskManager) -> (r: Option<(usize, usize)>)
    requires
        old(tm).inner.current_task < old(tm).inner.tasks@.len(),
        old(tm).inner.current_task + old(tm).inner.tasks@.len() <= usize::MAX,
    ensures
        final(tm).inner.tasks@.len() == old(tm).inner.tasks@.len(),
        r is Some,
        r matches Some((from, to)) ==> from == old(tm).inner.current_task && to == final(tm).inner.current_task
            && next_ready(
            statuses(old(tm).inner.tasks@).update(old(tm).inner.current_task as int, TaskStatus::Ready),
            old(tm).inner.current_task as int,
        ) == Some(to as int) && statuses(final(tm).inner.tasks@) == statuses(old(tm).inner.tasks@).update(
            old(tm).inner.current_task as int,
            TaskStatus::Ready,
        ).update(to as int, TaskStatus::Running),
{
    tm.mark_current_suspended();
    let ghost s = statuses(tm.inner.tasks@);
    let ghost c = tm.inner.current_task as int;
    proof {
        let n = s.len() as int;
        assert((c + n) % n == c) by {
            vstd::arithmetic::div_mod::lemma_mod_add_multiples_vanish(c, n);
            vstd::arithmetic::div_mod::lemma_small_mod(c as nat, n as nat);
        }
        assert(ready_at(s, c, n));
    }
    tm.run_next_task()
}

/// The trap-context words the kernel's start gives a task: no program yet (entry, stack,
/// user `satp` and user address of the context all zero), the kernel's `satp`, the top of the
/// task's kernel stack, the trap handler, and the context at `TRAP_CONTEXT_USER` for the
/// trampoline code.
pub open spec fn boot_trap_cx_words(kernel_satp: u64, kstack_top: u64, trap_handler: u64, trap_cx_pa: u64, sstatus_bits: u64) -> Seq<u64> {
    app_init_words(0, 0, kernel_satp, kstack_top, trap_handler, 0, 0, TRAP_CONTEXT_USER, trap_cx_pa, sstatus_bits)
}

/// What the kernel's start makes of task `i`, given its kernel stack.
pub open spec fn boot_task_ok(t: TaskControlBlock, i: int, restore_offset: u64) -> bool {
    let top = t.kernel_stack.bottom_ppn * 4096 + KERNEL_STACK_SIZE;
    &&& t.task_status == (if i == 0 { TaskStatus::Running } else { TaskStatus::Ready })
    &&& t.trap_cx_ppn == t.kernel_stack.bottom_ppn + 3
    &&& t.task_cx == (TaskContext {
        ra: (TRAMPOLINE + restore_offset) as u64,
        sp: top as u64,
        s0: (t.trap_cx_ppn * 4096) as u64,
        ..zero_context()
    })
    &&& t.memory_set is None
}

/// Creates the tasks of the `num_app` applications: each gets a kernel stack of four
/// consecutive frames, its trap context in the top page of that stack, and a task context
/// that returns to user mode through the trampoline code at `restore_offset`. Task 0 is
/// running, the others ready. Each trap context holds the kernel's `satp`, the stack top,
/// `trap_handler` and the user `sstatus` made from `sstatus_bits`.
pub fn init(
    tm: &mut TaskManager,
    num_app: usize,
    kernel_satp: u64,
    trap_handler: u64,
    restore_offset: u64,
    sstatus_bits: u64,
    mem: &mut PhysMem,
    allocator: &mut FrameAllocator,
)
    requires
        old(allocator)@.current + 4 * num_app <= old(allocator)@.end,
        old(allocator)@.end < 0x10_0000_0000_0000,
        restore_offset < 4096,
    ensures
        final(tm).num_app == old(tm).num_app,
        final(tm).inner.current_task == 0,
        final(tm).inner.tasks@.len() == num_app,
        final(allocator)@ == (FrameAllocState { current: (old(allocator)@.current + 4 * num_app) as u64, ..old(allocator)@ }),
        old(allocator)@.wf() ==> final(allocator)@.wf(),
        forall|i: int| 0 <= i < num_app ==> boot_task_ok(#[trigger] final(tm).inner.tasks@[i], i, restore_offset),
        forall|p: u64| (forall|i: int| 0 <= i < num_app ==> #[trigger] final(tm).inner.tasks@[i].trap_cx_ppn != p)
            ==> #[trigger] final(mem).frame(p) == old(mem).frame(p),
        forall|i: int| 0 <= i < num_app ==> {
            let t = #[trigger] final(tm).inner.tasks@[i];
            &&& t.kernel_stack.bottom_ppn == old(allocator)@.current + 4 * i
            &&& stored_trap_cx(final(mem), t.trap_cx_ppn) == boot_trap_cx_words(
                kernel_satp,
                (t.kernel_stack.bottom_ppn * 4096 + KERNEL_STACK_SIZE) as u64,
                trap_handler,
                (t.trap_cx_ppn * 4096) as u64,
                sstatus_bits,
            )
        },
{
    let ghost a0 = allocator@;
    let ghost m0 = *mem;
    let mut tasks: Vec<TaskControlBlock> = Vec::with_capacity(num_app);
    let mut i: usize = 0;
    while i < num_app
        invariant
            i <= num_app,
            tasks@.len() == i,
            a0.current + 4 * num_app <= a0.end,
            a0.end < 0x10_0000_0000_0000,
            restore_offset < 4096,
            allocator@ == (FrameAllocState { current: (a0.current + 4 * i) as u64, ..a0 }),
            a0.wf() ==> allocator@.wf(),
            forall|j: int| 0 <= j < i ==> boot_task_ok(#[trigger] tasks@[j], j, restore_offset),
            forall|p: u64| (forall|j: int| 0 <= j < i ==> #[trigger] tasks@[j].trap_cx_ppn != p)
                ==> #[trigger] mem.frame(p) == m0.frame(p),
            forall|j: int| 0 <= j < i ==> {
                let t = #[trigger] tasks@[j];
                &&& t.kernel_stack.bottom_ppn == a0.current + 4 * j
                &&& stored_trap_cx(mem, t.trap_cx_ppn) == boot_trap_cx_words(
                    kernel_satp,
                    (t.kernel_stack.bottom_ppn * 4096 + KERNEL_STACK_SIZE) as u64,
                    trap_handler,
                    (t.trap_cx_ppn * 4096) as u64,
                    sstatus_bits,
                )
            },
        decreases num_app - i,
    {
        assert(a0.current + 4 * i + 4 <= a0.current + 4 * num_app);
        let kstack = KernelStack::new(i as u64, allocator);
        let kstack_top = kstack.top();
        let trap_cx_kernel = kstack_top - PAGE_SIZE;
        let trap_cx_ppn = trap_cx_kernel >> PAGE_SIZE_BITS;
        proof {
            crate::address::lemma_shr12(trap_cx_kernel);
            assert(trap_cx_ppn == kstack.bottom_ppn + 3);
        }
        let cx = TrapContext::app_init_context(
            0,
            0,
            kernel_satp,
            kstack_top,
            trap_handler,
            0,
            0,
            TRAP_CONTEXT_USER,
            trap_cx_kernel,
            sstatus_bits,
        );
        store_trap_cx(mem, PhysPageNum(trap_cx_ppn), &cx);
        let status = if i == 0 { TaskStatus::Running } else { TaskStatus::Ready };
        let tcb = TaskControlBlock {
            task_status: status,
            task_cx: TaskContext::goto_trap_return(kstack_top, PhysPageNum(trap_cx_ppn), restore_offset),
            trap_cx_ppn,
            kernel_stack: kstack,
            memory_set: None,
        };
        let ghost old_tasks = tasks@;
        tasks.push(tcb);
        proof {
            assert(tasks@[i as int] == tcb);
            assert forall|p: u64| (forall|j: int| 0 <= j < i + 1 ==> #[trigger] tasks@[j].trap_cx_ppn != p) implies #[trigger] mem.frame(p) == m0.frame(p) by {
                assert(tasks@[i as int].trap_cx_ppn != p);
                assert forall|j: int| 0 <= j < i implies #[trigger] old_tasks[j].trap_cx_ppn != p by {
                    assert(tasks@[j] == old_tasks[j]);
                }
            }
            assert(trap_cx_words(cx) =~= boot_trap_cx_words(kernel_satp, kstack_top, trap_handler, trap_cx_kernel, sstatus_bits));
            assert forall|j: int| 0 <= j < i implies old_tasks[j].trap_cx_ppn != trap_cx_ppn by {
                assert(tasks@[j] == old_tasks[j]);
            }
        }
        i = i + 1;
    }
    tm.inner.tasks = tasks;
    tm.inner.current_task = 0;
}

/// The whole milliseconds that `time` ticks of the timer (12.5 MHz) make.
pub fn get_time_ms(time: u64) -> (r: u64)
    ensures
        r == time / 12500,
{
    time / (crate::config::CLOCK_FREQ / 1000)
}

/// The timer value at which the next tick (1/100 s later) fires.
pub fn next_trigger(time: u64) -> (r: u64)
    requires
        time + 125000 <= u64::MAX,
    ensures
        r == time + 125000,
{
    time + crate::config::CLOCK_FREQ / 100
}

} // verus!
