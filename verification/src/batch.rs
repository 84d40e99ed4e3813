//! The earlier, physically addressed kernel: applications loaded at fixed addresses, up to
//! four tasks switched round-robin, and three system calls.
use vstd::prelude::*;

use crate::config::{APP_BASE_ADDRESS, APP_SIZE_LIMIT};
use crate::trap::{sstatus_with_user_spp, SSTATUS_MASK};

verus! {

/// The number of task slots of the batch kernel.
pub const BATCH_TASKS: usize = 4;

/// The state of a task.
#[derive(Clone, Copy, PartialEq, Eq, Structural, Debug)]
pub enum TaskStatus {
    UnInit,
    Ready,
    Running,
    Exited,
}

/// The callee-saved registers that a task switch saves.
#[derive(Clone, Copy, PartialEq, Eq, Structural, Debug)]
pub struct TaskContext {
    pub ra: u64,
    pub sp: u64,
    pub s0: u64,
    pub s1: u64,
    pub s2: u64,
    pub s3: u64,
    pub s4: u64,
    pub s5: u64,
    pub s6: u64,
    pub s7: u64,
    pub s8: u64,
    pub s9: u64,
    pub s10: u64,
    pub s11: u64,
}

impl TaskContext {
    /// The context with every register zero.
    pub fn zero_init() -> (r: TaskContext)
        ensures
            r == crate::task::zero_context_batch(),
    {
        TaskContext { ra: 0, sp: 0, s0: 0, s1: 0, s2: 0, s3: 0, s4: 0, s5: 0, s6: 0, s7: 0, s8: 0, s9: 0, s10: 0, s11: 0 }
    }

    /// The context that, when switched to, runs the restore code at `restore` on the kernel
    /// stack `kstack_ptr`.
    pub fn goto_trap_return(kstack_ptr: u64, restore: u64) -> (r: TaskContext)
        ensures
            r == (TaskContext { ra: restore, sp: kstack_ptr, ..crate::task::zero_context_batch() }),
    {
        TaskContext { ra: restore, sp: kstack_ptr, s0: 0, s1: 0, s2: 0, s3: 0, s4: 0, s5: 0, s6: 0, s7: 0, s8: 0, s9: 0, s10: 0, s11: 0 }
    }
}

/// A task of the batch kernel.
#[derive(Clone, Copy, PartialEq, Eq, Structural, Debug)]
pub struct TaskControlBlock {
    pub task_status: TaskStatus,
    pub task_cx: TaskContext,
}

/// The task slots and the index of the running task.
pub struct TaskManagerInner {
    pub tasks: [TaskControlBlock; 4],
    pub current_task: usize,
}

/// The task manager of the batch kernel.
pub struct TaskManager {
    pub num_app: usize,
    pub inner: TaskManagerInner,
}

/// Whether the task `i` places after `current`, going round `n` tasks, is ready.
pub open spec fn ready_after(tasks: Seq<TaskControlBlock>, n: int, current: int, i: int) -> bool {
    tasks[(current + i) % n].task_status == TaskStatus::Ready
}

/// The first ready task after `current` among the first `n`, going round.
pub open spec fn next_ready(tasks: Seq<TaskControlBlock>, n: int, current: int) -> Option<int> {
    if exists|i: int| 1 <= i <= n && #[trigger] ready_after(tasks, n, current, i) {
        let i = choose|i: int|
            1 <= i <= n && #[trigger] ready_after(tasks, n, current, i) && forall|j: int| 1 <= j < i ==> !#[trigger] ready_after(tasks, n, current, j);
        Some((current + i) % n)
    } else {
        None
    }
}

proof fn lemma_next_ready_first(t: Seq<TaskControlBlock>, n: int, current: int, i: int)
    requires
        n > 0,
        1 <= i <= n,
        ready_after(t, n, current, i),
        forall|j: int| 1 <= j < i ==> !#[trigger] ready_after(t, n, current, j),
    ensures
        next_ready(t, n, current) == Some((current + i) % n),
{
    let k = choose|k: int|
        1 <= k <= n && #[trigger] ready_after(t, n, current, k) && forall|j: int| 1 <= j < k ==> !#[trigger] ready_after(t, n, current, j);
    if k < i {
        assert(!ready_after(t, n, current, k));
    } else if k > i {
        assert(!ready_after(t, n, current, i));
    }
}

/// When some application is ready, a first one going round exists.
proof fn lemma_first_ready(t: Seq<TaskControlBlock>, n: int, current: int, k: int)
    requires
        n > 0,
        1 <= k <= n,
        exists|i: int| 1 <= i <= k && #[trigger] ready_after(t, n, current, i),
    ensures
        exists|i: int|
            1 <= i <= k && #[trigger] ready_after(t, n, current, i) && forall|j: int| 1 <= j < i ==> !#[trigger] ready_after(t, n, current, j),
    decreases k,
{
    if k > 1 && exists|i: int| 1 <= i <= k - 1 && #[trigger] ready_after(t, n, current, i) {
        lemma_first_ready(t, n, current, k - 1);
    } else {
        let i = choose|i: int| 1 <= i <= k && #[trigger] ready_after(t, n, current, i);
        assert(i == k || k == 1);
        assert(forall|j: int| 1 <= j < i ==> !#[trigger] ready_after(t, n, current, j));
    }
}

/// The application chosen next is one of the `n` applications and is ready; when none is
/// chosen, none of them is ready.
pub proof fn law_next_ready_is_ready(t: Seq<TaskControlBlock>, n: int, current: int)
    requires
        0 < n <= t.len(),
    ensures
        next_ready(t, n, current) matches Some(i) ==> 0 <= i < n && t[i].task_status == TaskStatus::Ready,
        next_ready(t, n, current) is None ==> forall|j: int| 0 <= j < n ==> t[j].task_status != TaskStatus::Ready,
{
    if exists|i: int| 1 <= i <= n && #[trigger] ready_after(t, n, current, i) {
        lemma_first_ready(t, n, current, n);
        let i = choose|i: int|
            1 <= i <= n && #[trigger] ready_after(t, n, current, i) && forall|j: int| 1 <= j < i ==> !#[trigger] ready_after(t, n, current, j);
        vstd::arithmetic::div_mod::lemma_mod_bound(current + i, n);
    } else {
        assert forall|j: int| 0 <= j < n implies t[j].task_status != TaskStatus::Ready by {
            let i = crate::task::lemma_steps_to(n, current, j);
            assert(!ready_after(t, n, current, i));
        }
    }
}

impl TaskManager {
    /// A manager with every slot uninitialised.
    pub fn new() -> (r: TaskManager)
        ensures
            r.num_app == 0,
            r.inner.current_task == 0,
            forall|i: int| 0 <= i < 4 ==> (#[trigger] r.inner.tasks@[i]).task_status == TaskStatus::UnInit,
    {
        let t = TaskControlBlock { task_status: TaskStatus::UnInit, task_cx: TaskContext::zero_init() };
        TaskManager { num_app: 0, inner: TaskManagerInner { tasks: [t; 4], current_task: 0 } }
    }

    /// Makes the first `contexts.len()` slots ready with the given initial contexts.
    pub fn init(&mut self, contexts: &Vec<TaskContext>)
        requires
            contexts@.len() <= 4,
        ensures
            final(self).num_app == contexts@.len(),
            final(self).inner.current_task == old(self).inner.current_task,
            forall|i: int| 0 <= i < contexts@.len() ==> (#[trigger] final(self).inner.tasks@[i]) == (TaskControlBlock { task_status: TaskStatus::Ready, task_cx: contexts@[i] }),
            forall|i: int| contexts@.len() <= i < 4 ==> #[trigger] final(self).inner.tasks@[i] == old(self).inner.tasks@[i],
    {
        let num_app = contexts.len();
        self.num_app = num_app;
        let mut i: usize = 0;
        while i < num_app
            invariant
                num_app == contexts@.len(),
                num_app <= 4,
                self.num_app == num_app,
                self.inner.current_task == old(self).inner.current_task,
                i <= num_app,
                forall|j: int| 0 <= j < i ==> (#[trigger] self.inner.tasks@[j]) == (TaskControlBlock { task_status: TaskStatus::Ready, task_cx: contexts@[j] }),
                forall|j: int| i <= j < 4 ==> #[trigger] self.inner.tasks@[j] == old(self).inner.tasks@[j],
            decreases num_app - i,
        {
            self.inner.tasks[i] = TaskControlBlock { task_status: TaskStatus::Ready, task_cx: contexts[i] };
            i = i + 1;
        }
    }

    /// Marks task 0 running; gives its context to switch to.
    pub fn run_first_task(&mut self) -> (r: TaskContext)
        ensures
            final(self).inner.tasks@ == old(self).inner.tasks@.update(0, TaskControlBlock { task_status: TaskStatus::Running, ..old(self).inner.tasks@[0] }),
            final(self).inner.current_task == old(self).inner.current_task,
            final(self).num_app == old(self).num_app,
            r == old(self).inner.tasks@[0].task_cx,
    {
        let mut t = self.inner.tasks[0];
        t.task_status = TaskStatus::Running;
        self.inner.tasks[0] = t;
        self.inner.tasks[0].task_cx
    }

    /// Marks the running task ready.
    pub fn mark_current_suspended(&mut self)
        requires
            old(self).inner.current_task < 4,
        ensures
            final(self).inner.tasks@ == old(self).inner.tasks@.update(
                old(self).inner.current_task as int,
                TaskControlBlock { task_status: TaskStatus::Ready, ..old(self).inner.tasks@[old(self).inner.current_task as int] },
            ),
            final(self).inner.current_task == old(self).inner.current_task,
            final(self).num_app == old(self).num_app,
    {
        let current = self.inner.current_task;
        let mut t = self.inner.tasks[current];
        t.task_status = TaskStatus::Ready;
        self.inner.tasks[current] = t;
    }

    /// Marks the running task finished.
    pub fn mark_current_exited(&mut self)
        requires
            old(self).inner.current_task < 4,
        ensures
            final(self).inner.tasks@ == old(self).inner.tasks@.update(
                old(self).inner.current_task as int,
                TaskControlBlock { task_status: TaskStatus::Exited, ..old(self).inner.tasks@[old(self).inner.current_task as int] },
            ),
            final(self).inner.current_task == old(self).inner.current_task,
            final(self).num_app == old(self).num_app,
    {
        let current = self.inner.current_task;
        let mut t = self.inner.tasks[current];
        t.task_status = TaskStatus::Exited;
        self.inner.tasks[current] = t;
    }

    /// The next task to run: the first ready one after the current one among the
    /// applications, going round.
    pub fn find_next_task(&self) -> (r: Option<usize>)
        requires
            self.num_app <= 4,
            self.inner.current_task < 4,
        ensures
            self.num_app > 0 ==> r == match next_ready(self.inner.tasks@, self.num_app as int, self.inner.current_task as int) {
                Some(i) => Some(i as usize),
                None => None,
            },
            self.num_app == 0 ==> r is None,
    {
        let current = self.inner.current_task;
        let n = self.num_app;
        let mut k: usize = 0;
        while k < n
            invariant
                n == self.num_app,
                n <= 4,
                current == self.inner.current_task,
                current < 4,
                0 <= k <= n,
                forall|j: int| 1 <= j < k + 1 ==> !#[trigger] ready_after(self.inner.tasks@, n as int, current as int, j),
            decreases n - k,
        {
            let i = k + 1;
            let next = (current + i) % n;
            if self.inner.tasks[next].task_status == TaskStatus::Ready {
                proof {
                    lemma_next_ready_first(self.inner.tasks@, n as int, current as int, i as int);
                }
                return Some(next);
            }
            k = k + 1;
        }
        proof {
            if n > 0 {
                assert(!(exists|i: int| 1 <= i <= n && #[trigger] ready_after(self.inner.tasks@, n as int, current as int, i)));
            }
        }
        None
    }

    /// Marks the next ready task running and makes it current; gives the contexts to switch
    /// from and to, or nothing when every application is done.
    pub fn run_next_task(&mut self) -> (r: Option<(TaskContext, TaskContext)>)
        requires
            old(self).num_app <= 4,
            old(self).inner.current_task < 4,
        ensures
            final(self).num_app == old(self).num_app,
            r is None ==> *final(self) == *old(self) && (old(self).num_app == 0 || next_ready(old(self).inner.tasks@, old(self).num_app as int, old(self).inner.current_task as int) is None),
            r matches Some((from, to)) ==> {
                let next = final(self).inner.current_task;
                &&& old(self).num_app > 0
                &&& next_ready(old(self).inner.tasks@, old(self).num_app as int, old(self).inner.current_task as int) == Some(next as int)
                &&& final(self).inner.tasks@ == old(self).inner.tasks@.update(next as int, TaskControlBlock { task_status: TaskStatus::Running, ..old(self).inner.tasks@[next as int] })
                &&& from == old(self).inner.tasks@[old(self).inner.current_task as int].task_cx
                &&& to == old(self).inner.tasks@[next as int].task_cx
            },
    {
        match self.find_next_task() {
            Some(next) => {
                let current = self.inner.current_task;
                let mut t = self.inner.tasks[next];
                t.task_status = TaskStatus::Running;
                self.inner.tasks[next] = t;
                self.inner.current_task = next;
                let from = self.inner.tasks[current].task_cx;
                let to = self.inner.tasks[next].task_cx;
                Some((from, to))
            },
            None => None,
        }
    }
}

/// The registers saved on a trap in the batch kernel.
#[derive(Clone, Copy)]
pub struct TrapContext {
    pub x: [u64; 32],
    pub sstatus: u64,
    pub sepc: u64,
}

impl TrapContext {
    /// Sets the stack pointer (x2).
    pub fn set_sp(&mut self, sp: u64)
        ensures
            final(self).x@ == old(self).x@.update(2, sp),
            final(self).sstatus == old(self).sstatus,
            final(self).sepc == old(self).sepc,
    {
        self.x[2] = sp;
    }

    /// The context in which an application starts at `entry` with stack pointer `sp`, in user
    /// mode; `sstatus_bits` is the current value of `sstatus`.
    pub fn app_init_context(entry: u64, sp: u64, sstatus_bits: u64) -> (r: TrapContext)
        ensures
            r.x@ == Seq::new(32, |i: int| if i == 2 { sp } else { 0u64 }),
            r.sstatus == (sstatus_bits & SSTATUS_MASK) & !0x100u64,
            r.sepc == entry,
    {
        let sstatus = sstatus_with_user_spp(sstatus_bits);
        let mut cx = TrapContext { x: [0; 32], sstatus, sepc: entry };
        cx.set_sp(sp);
        proof {
            assert(cx.x@ =~= Seq::new(32, |i: int| if i == 2 { sp } else { 0u64 }));
        }
        cx
    }
}

/// The address at which application `app_id` is loaded.
pub fn app_base_address(app_id: u64) -> (r: u64)
    requires
        app_id < 0x1000,
    ensures
        r == APP_BASE_ADDRESS + app_id * APP_SIZE_LIMIT,
{
    APP_BASE_ADDRESS + app_id * APP_SIZE_LIMIT
}

/// The size in bytes of a batch trap context (34 machine words).
pub const BATCH_TRAP_CX_SIZE: u64 = 272;

/// The start of application `app_id`: its trap context (at its load address, on the user
/// stack `ustack_top`), where that context goes (just below the kernel stack top
/// `kstack_top`), and the task context that runs the restore code at `restore` on it.
pub fn init_app_cx(app_id: u64, kstack_top: u64, ustack_top: u64, restore: u64, sstatus_bits: u64) -> (r: (
    TrapContext,
    u64,
    TaskContext,
))
    requires
        app_id < crate::config::MAX_APP_NUM,
        kstack_top >= BATCH_TRAP_CX_SIZE,
    ensures
        r.0.x@ == Seq::new(32, |i: int| if i == 2 { ustack_top } else { 0u64 }),
        r.0.sstatus == (sstatus_bits & SSTATUS_MASK) & !0x100u64,
        r.0.sepc == APP_BASE_ADDRESS + app_id * APP_SIZE_LIMIT,
        r.1 == kstack_top - BATCH_TRAP_CX_SIZE,
        r.2 == (TaskContext { ra: restore, sp: r.1, ..crate::task::zero_context_batch() }),
{
    let app_entry = app_base_address(app_id);
    let trap_cx = TrapContext::app_init_context(app_entry, ustack_top, sstatus_bits);
    let trap_cx_ptr = kstack_top - BATCH_TRAP_CX_SIZE;
    (trap_cx, trap_cx_ptr, TaskContext::goto_trap_return(trap_cx_ptr, restore))
}

/// Where to copy each application image: its load address, its source start and its
/// length, from the table of `num_app + 1` image boundaries.
pub fn app_load_plan(app_start: &Vec<u64>) -> (r: Vec<(u64, u64, u64)>)
    requires
        app_start@.len() >= 1,
        app_start@.len() <= 0x1000,
        forall|i: int| 0 <= i < app_start@.len() - 1 ==> #[trigger] app_start@[i] <= app_start@[i + 1],
    ensures
        r@.len() == app_start@.len() - 1,
        forall|i: int|
            0 <= i < r@.len() ==> #[trigger] r@[i] == (
                (APP_BASE_ADDRESS + i * APP_SIZE_LIMIT) as u64,
                app_start@[i],
                (app_start@[i + 1] - app_start@[i]) as u64,
            ),
{
    let num_app = app_start.len() - 1;
    let mut v: Vec<(u64, u64, u64)> = Vec::new();
    let mut i: usize = 0;
    while i < num_app
        invariant
            num_app == app_start@.len() - 1,
            app_start@.len() <= 0x1000,
            forall|j: int| 0 <= j < app_start@.len() - 1 ==> #[trigger] app_start@[j] <= app_start@[j + 1],
            i <= num_app,
            v@.len() == i,
            forall|j: int|
                0 <= j < i ==> #[trigger] v@[j] == (
                    (APP_BASE_ADDRESS + j * APP_SIZE_LIMIT) as u64,
                    app_start@[j],
                    (app_start@[j + 1] - app_start@[j]) as u64,
                ),
        decreases num_app - i,
    {
        let base = app_base_address(i as u64);
        let start = app_start[i];
        let end = app_start[i + 1];
        v.push((base, start, end - start));
        i = i + 1;
    }
    v
}

/// What a system call of the batch kernel does.
#[derive(Clone, Copy, PartialEq, Eq, Structural, Debug)]
pub enum SyscallKind {
    Write,
    Exit,
    Yield,
}

/// The system call with number `syscall_id`, or nothing for an unsupported one.
pub fn syscall_kind(syscall_id: u64) -> (r: Option<SyscallKind>)
    ensures
        r == (if syscall_id == 64 {
            Some(SyscallKind::Write)
        } else if syscall_id == 93 {
            Some(SyscallKind::Exit)
        } else if syscall_id == 124 {
            Some(SyscallKind::Yield)
        } else {
            None
        }),
{
    if syscall_id == 64 {
        Some(SyscallKind::Write)
    } else if syscall_id == 93 {
        Some(SyscallKind::Exit)
    } else if syscall_id == 124 {
        Some(SyscallKind::Yield)
    } else {
        None
    }
}

/// The result of `write`: the length written for standard output when the bytes are valid
/// UTF-8, otherwise -1.
pub fn write_result(fd: u64, len: u64, valid_utf8: bool) -> (r: i64)
    requires
        len <= i64::MAX,
    ensures
        r == (if fd == 1 && valid_utf8 { len as i64 } else { -1i64 }),
{
    if fd == 1 && valid_utf8 {
        len as i64
    } else {
        -1
    }
}

/// The result of the byte-by-byte `sys_write`: the length for standard output, else -1.
pub fn sys_write(fd: u64, len: u64) -> (r: i64)
    requires
        len <= i64::MAX,
    ensures
        r == (if fd == 1 { len as i64 } else { -1i64 }),
{
    if fd == 1 {
        len as i64
    } else {
        -1
    }
}

} // verus!
