//! Processes: a task with its own user address space, created from an ELF image, replaced
//! by `exec` and copied by `fork`.
use vstd::prelude::*;

use crate::address::{vpn_sv39, PhysPageNum, VirtPageNum};
use crate::config::{KERNEL_STACK_SIZE, PAGE_SIZE, TRAMPOLINE, TRAP_CONTEXT_USER, USER_STACK_SIZE};
use crate::elf::elf_header;
use crate::user_space::{covers_trap_page, elf_frames_needed, elf_loadable, lemma_program_loaded_store, program_loaded, user_stack_bottom};
use crate::frame::{FrameAllocState, FrameAllocator};
use crate::memory_set::{trampoline_vpn, MemorySet};
use crate::fork_space::{area_copy_of, area_pages, leaves_have_area_perms, page_copied, user_space_ok};
use crate::pid::{pid_alloc, PidAllocator};
use crate::page_table::{alloc_ok_for, alloc_shrinks, in_tree, law_walk_uses_sv39_bits, lemma_agree_on_tree, satp_of, walk};
use crate::phys_mem::PhysMem;
use crate::pte::pte_ppn;
use crate::task::{free_count, zero_context, KernelStack, TaskContext};
use crate::trap::{user_sstatus, TrapContext};

verus! {

/// The words of a trap context as it lies in memory: `x0`..`x31`, then `sstatus`, `sepc`,
/// `kernel_satp`, `kernel_sp`, `trap_handler`, `user_satp`, `trap_cx_user`,
/// `trap_cx_kernel` and `trap_cx_ppn_pa`.
pub open spec fn trap_cx_words(cx: TrapContext) -> Seq<u64> {
    cx.x@ + seq![
        cx.sstatus,
        cx.sepc,
        cx.kernel_satp,
        cx.kernel_sp,
        cx.trap_handler,
        cx.user_satp,
        cx.trap_cx_user,
        cx.trap_cx_kernel,
        cx.trap_cx_ppn_pa,
    ]
}

/// The trap context words that frame `ppn` holds.
pub open spec fn stored_trap_cx(mem: &PhysMem, ppn: u64) -> Seq<u64> {
    mem.frame(ppn).subrange(0, 41)
}

/// Writes trap context `cx` to the start of frame `ppn`.
pub fn store_trap_cx(mem: &mut PhysMem, ppn: PhysPageNum, cx: &TrapContext)
    ensures
        stored_trap_cx(final(mem), ppn.0) == trap_cx_words(*cx),
        final(mem).frame(ppn.0).subrange(41, 512) == old(mem).frame(ppn.0).subrange(41, 512),
        forall|p: u64| p != ppn.0 ==> #[trigger] final(mem).frame(p) == old(mem).frame(p),
{
    let ghost m0 = *mem;
    proof {
        m0.lemma_frame_len(ppn.0);
    }
    let mut i: usize = 0;
    while i < 32
        invariant
            i <= 32,
            mem.frame(ppn.0).len() == 512,
            forall|j: int| 0 <= j < i ==> #[trigger] mem.frame(ppn.0)[j] == cx.x@[j],
            forall|j: int| i <= j < 512 ==> #[trigger] mem.frame(ppn.0)[j] == m0.frame(ppn.0)[j],
            forall|p: u64| p != ppn.0 ==> #[trigger] mem.frame(p) == m0.frame(p),
        decreases 32 - i,
    {
        mem.write_word(ppn, i, cx.x[i]);
        i = i + 1;
    }
    mem.write_word(ppn, 32, cx.sstatus);
    mem.write_word(ppn, 33, cx.sepc);
    mem.write_word(ppn, 34, cx.kernel_satp);
    mem.write_word(ppn, 35, cx.kernel_sp);
    mem.write_word(ppn, 36, cx.trap_handler);
    mem.write_word(ppn, 37, cx.user_satp);
    mem.write_word(ppn, 38, cx.trap_cx_user);
    mem.write_word(ppn, 39, cx.trap_cx_kernel);
    mem.write_word(ppn, 40, cx.trap_cx_ppn_pa);
    proof {
        assert(stored_trap_cx(mem, ppn.0) =~= trap_cx_words(*cx));
        assert(mem.frame(ppn.0).subrange(41, 512) =~= m0.frame(ppn.0).subrange(41, 512));
    }
}

/// Reads the trap context at the start of frame `ppn`.
pub fn load_trap_cx(mem: &PhysMem, ppn: PhysPageNum) -> (r: TrapContext)
    ensures
        trap_cx_words(r) == stored_trap_cx(mem, ppn.0),
{
    proof {
        mem.lemma_frame_len(ppn.0);
    }
    let mut x: [u64; 32] = [0; 32];
    let mut i: usize = 0;
    while i < 32
        invariant
            i <= 32,
            forall|j: int| 0 <= j < i ==> #[trigger] x@[j] == mem.frame(ppn.0)[j],
        decreases 32 - i,
    {
        x[i] = mem.read_word(ppn, i);
        i = i + 1;
    }
    let r = TrapContext {
        x,
        sstatus: mem.read_word(ppn, 32),
        sepc: mem.read_word(ppn, 33),
        kernel_satp: mem.read_word(ppn, 34),
        kernel_sp: mem.read_word(ppn, 35),
        trap_handler: mem.read_word(ppn, 36),
        user_satp: mem.read_word(ppn, 37),
        trap_cx_user: mem.read_word(ppn, 38),
        trap_cx_kernel: mem.read_word(ppn, 39),
        trap_cx_ppn_pa: mem.read_word(ppn, 40),
    };
    proof {
        assert(trap_cx_words(r) =~= stored_trap_cx(mem, ppn.0));
    }
    r
}


/// The words of the trap context that `TrapContext::app_init_context` makes from its
/// arguments.
pub open spec fn app_init_words(
    entry: u64,
    sp: u64,
    kernel_satp: u64,
    kernel_sp: u64,
    trap_handler: u64,
    user_satp: u64,
    trap_cx_user: u64,
    trap_cx_kernel: u64,
    trap_cx_ppn_pa: u64,
    sstatus_bits: u64,
) -> Seq<u64> {
    Seq::new(32, |i: int| if i == 2 { sp } else { 0u64 }) + seq![
        user_sstatus(sstatus_bits),
        entry,
        kernel_satp,
        kernel_sp,
        trap_handler,
        user_satp,
        trap_cx_user,
        trap_cx_kernel,
        trap_cx_ppn_pa,
    ]
}

/// The trap context words a program starts with: those of `TrapContext::app_init_context`
/// with the trap context at `TRAP_CONTEXT_USER` in the user address space.
pub open spec fn init_trap_cx_words(
    entry: u64,
    sp: u64,
    kernel_satp: u64,
    kernel_sp: u64,
    trap_handler: u64,
    user_satp: u64,
    trap_cx_ppn_pa: u64,
    sstatus_bits: u64,
) -> Seq<u64> {
    app_init_words(
        entry,
        sp,
        kernel_satp,
        kernel_sp,
        trap_handler,
        user_satp,
        TRAP_CONTEXT_USER,
        TRAP_CONTEXT_USER,
        trap_cx_ppn_pa,
        sstatus_bits,
    )
}

/// The frame that `kernel_space` maps at the trampoline page.
pub open spec fn trampoline_frame(mem: &PhysMem, kernel_space: &MemorySet) -> u64 {
    pte_ppn(walk(mem, kernel_space.page_table.root_ppn.0, trampoline_vpn(TRAMPOLINE))->0)
}

/// The frame of the trap-context page of an address space.
pub open spec fn trap_cx_frame(mem: &PhysMem, ms: &MemorySet) -> u64 {
    pte_ppn(walk(mem, ms.page_table.root_ppn.0, TRAP_CONTEXT_USER / 4096)->0)
}

/// A process identifier.
#[derive(Clone, Copy, PartialEq, Eq, Structural, Debug)]
pub struct PidHandle(pub u64);

/// The state of a process.
#[derive(Clone, Copy, PartialEq, Eq, Structural, Debug)]
pub enum TaskStatus {
    Ready,
    Running,
    Zombie,
}

/// The part of a process that changes while it lives.
pub struct TaskControlBlockInner {
    /// The frame of the trap context page.
    pub trap_cx_ppn: PhysPageNum,
    /// The top of the user stack the program started with.
    pub base_size: u64,
    pub task_cx: TaskContext,
    pub task_status: TaskStatus,
    pub memory_set: MemorySet,
    /// The pid of the parent, if any.
    pub parent: Option<u64>,
    /// The pids of the children.
    pub children: Vec<u64>,
    pub exit_code: i32,
}

impl TaskControlBlockInner {
    /// The trap context the process traps with.
    pub fn get_trap_cx(&self, mem: &PhysMem) -> (r: TrapContext)
        ensures
            trap_cx_words(r) == stored_trap_cx(mem, self.trap_cx_ppn.0),
    {
        load_trap_cx(mem, self.trap_cx_ppn)
    }

    /// The `satp` of the process's address space.
    pub fn get_user_token(&self) -> (r: u64)
        ensures
            r == satp_of(self.memory_set.page_table.root_ppn.0),
    {
        self.memory_set.token()
    }

    fn get_status(&self) -> (r: TaskStatus)
        ensures
            r == self.task_status,
    {
        self.task_status
    }

    /// Whether the process has exited and waits to be reaped.
    pub fn is_zombie(&self) -> (r: bool)
        ensures
            r == (self.task_status == TaskStatus::Zombie),
    {
        self.get_status() == TaskStatus::Zombie
    }
}

/// A process.
pub struct TaskControlBlock {
    pub pid: PidHandle,
    pub kernel_stack: KernelStack,
    pub inner: TaskControlBlockInner,
}

/// A user address space stays valid while its tables keep their contents.
proof fn lemma_user_space_ok_frames(m1: &PhysMem, m2: &PhysMem, ms: &MemorySet, a: FrameAllocState, tf: u64)
    requires
        user_space_ok(m1, ms, a, tf),
        forall|p: u64| #[trigger] in_tree(m1, ms.page_table.root_ppn.0, p) ==> m2.frame(p) == m1.frame(p),
    ensures
        user_space_ok(m2, ms, a, tf),
        forall|v: u64| #[trigger] walk(m2, ms.page_table.root_ppn.0, v) == walk(m1, ms.page_table.root_ppn.0, v),
{
    let root = ms.page_table.root_ppn.0;
    lemma_agree_on_tree(m1, m2, root);
    assert forall|i: int, k: int|
        0 <= i < ms.areas@.len() && 0 <= k < ms.areas@[i].vpn_range.len() implies #[trigger] walk(
        m2,
        root,
        (ms.areas@[i].vpn_range.start.0 + k) as u64,
    ) is Some by {
        assert(walk(m1, root, (ms.areas@[i].vpn_range.start.0 + k) as u64) is Some);
    }
}

/// A user address space stays valid while the allocator only hands frames out.
proof fn lemma_user_space_ok_shrink(mem: &PhysMem, ms: &MemorySet, a1: FrameAllocState, a2: FrameAllocState, tf: u64)
    requires
        user_space_ok(mem, ms, a1, tf),
        alloc_shrinks(a1, a2),
    ensures
        user_space_ok(mem, ms, a2, tf),
{
}

/// The page of `TRAP_CONTEXT_USER` and its page number as the `From` conversion makes it
/// share one slot.
proof fn lemma_trap_page_slot()
    ensures
        vpn_sv39(TRAP_CONTEXT_USER / 4096) == vpn_sv39(((TRAP_CONTEXT_USER / 4096) % 0x800_0000) as u64),
{
    crate::address::lemma_high_pages();
}

/// Four aligned untouched frames leave room for four consecutive untouched frames.
proof fn lemma_room_for_stack(a: FrameAllocState)
    requires
        a.aligned_count() >= 4,
    ensures
        a.current < a.end,
        a.end - a.current >= 4,
{
    assert(a.current < a.end);
    assert((a.end + 511) / 512 - (a.current + 511) / 512 <= a.end - a.current) by (nonlinear_arith)
        requires
            a.current < a.end,
    ;
}

impl TaskControlBlock {
    /// The changing part of the process.
    pub fn inner_exclusive_access(&self) -> (r: &TaskControlBlockInner)
        ensures
            *r == self.inner,
    {
        &self.inner
    }

    /// A process running the ELF image `elf_data`: its address space, a kernel stack, a
    /// task context that returns to user mode through the trampoline code at
    /// `restore_offset`, and a trap context that starts the program at its entry point on its
    /// user stack. `trap_handler` is the address of the kernel's trap handler and
    /// `sstatus_bits` the current `sstatus`.
    pub fn new(
        elf_data: &[u8],
        pids: &mut PidAllocator,
        kernel_space: &MemorySet,
        mem: &mut PhysMem,
        allocator: &mut FrameAllocator,
        trap_handler: u64,
        restore_offset: u64,
        sstatus_bits: u64,
    ) -> (r: TaskControlBlock)
        requires
            elf_loadable(elf_data@),
            old(allocator)@.wf(),
            old(allocator)@.end <= 0x1000_0000_0000,
            forall|p: u64| #[trigger] old(allocator)@.is_free(p) ==> p < 0x1000_0000_0000,
            old(allocator)@.aligned_count() >= elf_frames_needed(elf_data@) + 4,
            alloc_ok_for(old(mem), kernel_space.page_table.root_ppn.0, old(allocator)@),
            walk(old(mem), kernel_space.page_table.root_ppn.0, trampoline_vpn(TRAMPOLINE)) is Some,
            !old(allocator)@.is_free(trampoline_frame(old(mem), kernel_space)),
            restore_offset < 4096,
            old(pids)@.wf(),
            old(pids)@.can_alloc(),
        ensures
            ({
                let ms = r.inner.memory_set;
                let s = elf_data@;
                let kstack_top = r.kernel_stack.bottom_ppn * 4096 + KERNEL_STACK_SIZE;
                &&& !old(pids)@.in_use(r.pid.0) && final(pids)@.in_use(r.pid.0) && final(pids)@.wf()
                &&& forall|p: u64| p != r.pid.0 ==> #[trigger] final(pids)@.in_use(p) == old(pids)@.in_use(p)
                &&& user_space_ok(final(mem), &ms, final(allocator)@, trampoline_frame(old(mem), kernel_space))
                &&& alloc_shrinks(old(allocator)@, final(allocator)@)
                &&& !final(allocator)@.is_free(r.kernel_stack.bottom_ppn)
                &&& r.inner.trap_cx_ppn.0 == trap_cx_frame(final(mem), &ms)
                &&& r.inner.base_size == user_stack_bottom(s) + USER_STACK_SIZE
                &&& r.inner.task_cx == (TaskContext {
                    ra: (TRAMPOLINE + restore_offset) as u64,
                    sp: kstack_top as u64,
                    s0: (r.inner.trap_cx_ppn.0 * 4096) as u64,
                    ..zero_context()
                })
                &&& r.inner.task_status == TaskStatus::Ready
                &&& r.inner.parent is None
                &&& r.inner.children@ == Seq::<u64>::empty()
                &&& r.inner.exit_code == 0
                &&& covers_trap_page(ms.areas@)
                &&& program_loaded(final(mem), &ms, s)
                &&& stored_trap_cx(final(mem), r.inner.trap_cx_ppn.0) == init_trap_cx_words(
                    elf_header(s).pt2.e_entry,
                    (user_stack_bottom(s) + USER_STACK_SIZE) as u64,
                    satp_of(kernel_space.page_table.root_ppn.0),
                    kstack_top as u64,
                    trap_handler,
                    satp_of(ms.page_table.root_ppn.0),
                    (r.inner.trap_cx_ppn.0 * 4096) as u64,
                    sstatus_bits,
                )
            }),
    {
        let pid = pid_alloc(pids);
        let ghost tf = trampoline_frame(mem, kernel_space);
        let ghost a0 = allocator@;
        let (memory_set, user_sp, entry_point) = MemorySet::from_elf(elf_data, kernel_space, mem, allocator);
        let ghost root = memory_set.page_table.root_ppn.0;
        let ghost a1 = allocator@;
        proof {
            lemma_trap_page_slot();
            law_walk_uses_sv39_bits(mem, root, TRAP_CONTEXT_USER / 4096, ((TRAP_CONTEXT_USER / 4096) % 0x800_0000) as u64);
            let tb = walk(mem, root, TRAP_CONTEXT_USER / 4096)->0.bits;
            crate::pte::lemma_pte_ppn_bound(tb);
        }
        let trap_cx_ppn = memory_set.translate(mem, VirtPageNum::from(TRAP_CONTEXT_USER)).unwrap();
        let trap_cx_ppn_pa = trap_cx_ppn.0 * PAGE_SIZE;
        let user_token = memory_set.token();
        proof {
            lemma_room_for_stack(allocator@);
        }
        let kernel_stack = KernelStack::new(pid.0, allocator);
        proof {
            assert(a1.is_free(kernel_stack.bottom_ppn));
            assert forall|x: u64| #[trigger] allocator@.is_free(x) implies a1.is_free(x) && a0.is_free(x) by {
                assert(a1.is_free(x));
            }
            lemma_user_space_ok_shrink(mem, &memory_set, a1, allocator@, tf);
        }
        let kernel_stack_top = kernel_stack.top();
        let task_cx = TaskContext::goto_trap_return(kernel_stack_top, trap_cx_ppn, restore_offset);
        let cx = TrapContext::app_init_context(
            entry_point,
            user_sp,
            kernel_space.token(),
            kernel_stack_top,
            trap_handler,
            user_token,
            TRAP_CONTEXT_USER,
            TRAP_CONTEXT_USER,
            trap_cx_ppn_pa,
            sstatus_bits,
        );
        let ghost m2 = *mem;
        store_trap_cx(mem, trap_cx_ppn, &cx);
        proof {
            assert forall|p: u64| #[trigger] in_tree(&m2, root, p) implies mem.frame(p) == m2.frame(p) by {
                assert(walk(&m2, root, TRAP_CONTEXT_USER / 4096) is Some);
            }
            lemma_user_space_ok_frames(&m2, mem, &memory_set, allocator@, tf);
            lemma_program_loaded_store(&m2, mem, &memory_set, elf_data@);
            assert(trap_cx_words(cx) =~= init_trap_cx_words(
                entry_point,
                user_sp,
                satp_of(kernel_space.page_table.root_ppn.0),
                kernel_stack_top,
                trap_handler,
                user_token,
                trap_cx_ppn_pa,
                sstatus_bits,
            ));
        }
        TaskControlBlock {
            pid,
            kernel_stack,
            inner: TaskControlBlockInner {
                trap_cx_ppn,
                base_size: user_sp,
                task_cx,
                task_status: TaskStatus::Ready,
                memory_set,
                parent: None,
                children: Vec::new(),
                exit_code: 0,
            },
        }
    }

    /// Replaces the program of the process by the ELF image `elf_data`: a new address space,
    /// its trap context page, a task context that returns to user mode, and a trap context
    /// that starts the new program. The pid, the kernel stack, the recorded stack top, the
    /// status, the parent, the children and the exit code stay.
    pub fn exec(
        &mut self,
        elf_data: &[u8],
        kernel_space: &MemorySet,
        mem: &mut PhysMem,
        allocator: &mut FrameAllocator,
        trap_handler: u64,
        restore_offset: u64,
        sstatus_bits: u64,
    )
        requires
            elf_loadable(elf_data@),
            old(allocator)@.wf(),
            old(allocator)@.end <= 0x1000_0000_0000,
            forall|p: u64| #[trigger] old(allocator)@.is_free(p) ==> p < 0x1000_0000_0000,
            old(allocator)@.aligned_count() >= elf_frames_needed(elf_data@),
            alloc_ok_for(old(mem), kernel_space.page_table.root_ppn.0, old(allocator)@),
            walk(old(mem), kernel_space.page_table.root_ppn.0, trampoline_vpn(TRAMPOLINE)) is Some,
            !old(allocator)@.is_free(trampoline_frame(old(mem), kernel_space)),
            restore_offset < 4096,
            old(self).kernel_stack.bottom_ppn < 0x10_0000_0000_0000 - 4,
        ensures
            ({
                let ms = final(self).inner.memory_set;
                let s = elf_data@;
                let kstack_top = old(self).kernel_stack.bottom_ppn * 4096 + KERNEL_STACK_SIZE;
                &&& final(self).pid == old(self).pid
                &&& final(self).kernel_stack == old(self).kernel_stack
                &&& final(self).inner.base_size == old(self).inner.base_size
                &&& final(self).inner.task_status == old(self).inner.task_status
                &&& final(self).inner.parent == old(self).inner.parent
                &&& final(self).inner.children@ == old(self).inner.children@
                &&& final(self).inner.exit_code == old(self).inner.exit_code
                &&& user_space_ok(final(mem), &ms, final(allocator)@, trampoline_frame(old(mem), kernel_space))
                &&& alloc_shrinks(old(allocator)@, final(allocator)@)
                &&& final(self).inner.trap_cx_ppn.0 == trap_cx_frame(final(mem), &ms)
                &&& covers_trap_page(ms.areas@)
                &&& program_loaded(final(mem), &ms, s)
                &&& final(self).inner.task_cx == (TaskContext {
                    ra: (TRAMPOLINE + restore_offset) as u64,
                    sp: kstack_top as u64,
                    s0: (final(self).inner.trap_cx_ppn.0 * 4096) as u64,
                    ..zero_context()
                })
                &&& stored_trap_cx(final(mem), final(self).inner.trap_cx_ppn.0) == init_trap_cx_words(
                    elf_header(s).pt2.e_entry,
                    (user_stack_bottom(s) + USER_STACK_SIZE) as u64,
                    satp_of(kernel_space.page_table.root_ppn.0),
                    kstack_top as u64,
                    trap_handler,
                    satp_of(ms.page_table.root_ppn.0),
                    (final(self).inner.trap_cx_ppn.0 * 4096) as u64,
                    sstatus_bits,
                )
            }),
    {
        let ghost tf = trampoline_frame(mem, kernel_space);
        let (memory_set, user_sp, entry_point) = MemorySet::from_elf(elf_data, kernel_space, mem, allocator);
        let ghost root = memory_set.page_table.root_ppn.0;
        proof {
            lemma_trap_page_slot();
            law_walk_uses_sv39_bits(mem, root, TRAP_CONTEXT_USER / 4096, ((TRAP_CONTEXT_USER / 4096) % 0x800_0000) as u64);
            let tb = walk(mem, root, TRAP_CONTEXT_USER / 4096)->0.bits;
            crate::pte::lemma_pte_ppn_bound(tb);
        }
        let trap_cx_ppn = memory_set.translate(mem, VirtPageNum::from(TRAP_CONTEXT_USER)).unwrap();
        let trap_cx_ppn_pa = trap_cx_ppn.0 * PAGE_SIZE;
        let user_token = memory_set.token();
        self.inner.memory_set = memory_set;
        self.inner.trap_cx_ppn = trap_cx_ppn;
        let kernel_stack_top = self.kernel_stack.top();
        self.inner.task_cx = TaskContext::goto_trap_return(kernel_stack_top, trap_cx_ppn, restore_offset);
        let cx = TrapContext::app_init_context(
            entry_point,
            user_sp,
            kernel_space.token(),
            kernel_stack_top,
            trap_handler,
            user_token,
            TRAP_CONTEXT_USER,
            TRAP_CONTEXT_USER,
            trap_cx_ppn_pa,
            sstatus_bits,
        );
        let ghost m2 = *mem;
        store_trap_cx(mem, trap_cx_ppn, &cx);
        proof {
            assert forall|p: u64| #[trigger] in_tree(&m2, root, p) implies mem.frame(p) == m2.frame(p) by {
                assert(walk(&m2, root, TRAP_CONTEXT_USER / 4096) is Some);
            }
            lemma_user_space_ok_frames(&m2, mem, &self.inner.memory_set, allocator@, tf);
            lemma_program_loaded_store(&m2, mem, &self.inner.memory_set, elf_data@);
            assert(trap_cx_words(cx) =~= init_trap_cx_words(
                entry_point,
                user_sp,
                satp_of(kernel_space.page_table.root_ppn.0),
                kernel_stack_top,
                trap_handler,
                user_token,
                trap_cx_ppn_pa,
                sstatus_bits,
            ));
        }
    }

    /// A child of this process (as `fork` makes it): a copy of the address space, a kernel
    /// stack of its own, a task context that returns to user mode through the trampoline
    /// code at `restore_offset`, and the parent's trap context with the child's kernel stack,
    /// trap-context address and page table; the child's pid joins the children. The frame
    /// budget it asks suffices; it is not the least need.
    pub fn fork(
        &mut self,
        pids: &mut PidAllocator,
        kernel_space: &MemorySet,
        mem: &mut PhysMem,
        allocator: &mut FrameAllocator,
        restore_offset: u64,
    ) -> (r: TaskControlBlock)
        requires
            walk(old(mem), kernel_space.page_table.root_ppn.0, trampoline_vpn(TRAMPOLINE)) is Some,
            user_space_ok(old(mem), &old(self).inner.memory_set, old(allocator)@, trampoline_frame(old(mem), kernel_space)),
            covers_trap_page(old(self).inner.memory_set.areas@),
            alloc_ok_for(old(mem), kernel_space.page_table.root_ppn.0, old(allocator)@),
            old(allocator)@.aligned_count() >= 3 + 3 * area_pages(
                old(self).inner.memory_set.areas@,
                old(self).inner.memory_set.areas@.len() as int,
            ) + 4,
            restore_offset < 4096,
            old(pids)@.wf(),
            old(pids)@.can_alloc(),
            old(pids)@.in_use(old(self).pid.0),
        ensures
            ({
                let tf = trampoline_frame(old(mem), kernel_space);
                let pms = old(self).inner.memory_set;
                let ms = r.inner.memory_set;
                let croot = ms.page_table.root_ppn.0;
                let kstack_top = r.kernel_stack.bottom_ppn * 4096 + KERNEL_STACK_SIZE;
                let ptrap = trap_cx_frame(old(mem), &pms);
                &&& !old(pids)@.in_use(r.pid.0) && final(pids)@.in_use(r.pid.0) && final(pids)@.wf()
                &&& forall|p: u64| p != r.pid.0 ==> #[trigger] final(pids)@.in_use(p) == old(pids)@.in_use(p)
                &&& r.pid != final(self).pid
                &&& user_space_ok(final(mem), &ms, final(allocator)@, tf)
                &&& user_space_ok(final(mem), &final(self).inner.memory_set, final(allocator)@, tf)
                &&& alloc_shrinks(old(allocator)@, final(allocator)@)
                &&& forall|p: u64| !old(allocator)@.is_free(p) ==> #[trigger] final(mem).frame(p) == old(mem).frame(p)
                &&& ms.areas@.len() == pms.areas@.len() + 1
                &&& forall|i: int| 0 <= i < pms.areas@.len() ==> area_copy_of(ms.areas@[i + 1], #[trigger] pms.areas@[i])
                &&& forall|i: int, k: int|
                    0 <= i < pms.areas@.len() && 0 <= k < pms.areas@[i].vpn_range.len() && pte_ppn(
                        walk(final(mem), croot, (pms.areas@[i].vpn_range.start.0 + k) as u64)->0,
                    ) != r.inner.trap_cx_ppn.0 ==> #[trigger] page_copied(
                        final(mem),
                        croot,
                        old(mem),
                        pms.page_table.root_ppn.0,
                        (pms.areas@[i].vpn_range.start.0 + k) as u64,
                    )
                &&& r.inner.trap_cx_ppn.0 == trap_cx_frame(final(mem), &ms)
                &&& covers_trap_page(ms.areas@)
                &&& leaves_have_area_perms(final(mem), croot, pms.areas@, pms.areas@.len() as int)
                &&& r.inner.base_size == old(self).inner.base_size
                &&& r.inner.task_cx == (TaskContext {
                    ra: (TRAMPOLINE + restore_offset) as u64,
                    sp: kstack_top as u64,
                    s0: (r.inner.trap_cx_ppn.0 * 4096) as u64,
                    ..zero_context()
                })
                &&& r.inner.task_status == TaskStatus::Ready
                &&& r.inner.parent == Some(old(self).pid.0)
                &&& r.inner.children@ == Seq::<u64>::empty()
                &&& r.inner.exit_code == 0
                &&& stored_trap_cx(final(mem), r.inner.trap_cx_ppn.0) == stored_trap_cx(old(mem), ptrap).update(35, kstack_top as u64).update(
                    37,
                    satp_of(croot),
                ).update(40, (r.inner.trap_cx_ppn.0 * 4096) as u64)
                &&& final(self).pid == old(self).pid
                &&& final(self).kernel_stack == old(self).kernel_stack
                &&& final(self).inner.memory_set == old(self).inner.memory_set
                &&& final(self).inner.trap_cx_ppn == old(self).inner.trap_cx_ppn
                &&& final(self).inner.base_size == old(self).inner.base_size
                &&& final(self).inner.task_cx == old(self).inner.task_cx
                &&& final(self).inner.task_status == old(self).inner.task_status
                &&& final(self).inner.parent == old(self).inner.parent
                &&& final(self).inner.children@ == old(self).inner.children@.push(r.pid.0)
                &&& final(self).inner.exit_code == old(self).inner.exit_code
            }),
    {
        let pid = pid_alloc(pids);
        let ghost tf = trampoline_frame(mem, kernel_space);
        let ghost m0 = *mem;
        let ghost a0 = allocator@;
        let ghost proot = self.inner.memory_set.page_table.root_ppn.0;
        let ghost pareas = self.inner.memory_set.areas@;
        let ghost t = TRAP_CONTEXT_USER / 4096;
        let memory_set = MemorySet::from_existed_user(&self.inner.memory_set, kernel_space, mem, allocator);
        let ghost croot = memory_set.page_table.root_ppn.0;
        let ghost m1 = *mem;
        let ghost a1 = allocator@;
        proof {
            lemma_trap_page_slot();
            law_walk_uses_sv39_bits(mem, croot, t, ((t % 0x800_0000) as u64));
            let i = choose|i: int| 0 <= i < pareas.len() && (#[trigger] pareas[i]).vpn_range.start.0 <= t < pareas[i].vpn_range.end.0;
            let k = t - pareas[i].vpn_range.start.0;
            assert((pareas[i].vpn_range.start.0 + k) as u64 == t);
            assert(page_copied(&m1, croot, &m0, proot, (pareas[i].vpn_range.start.0 + k) as u64));
            assert(walk(&m1, croot, t) is Some);
            assert(area_copy_of(memory_set.areas@[i + 1], pareas[i]));
            assert(covers_trap_page(memory_set.areas@));
            let tb = walk(mem, croot, t)->0.bits;
            crate::pte::lemma_pte_ppn_bound(tb);
        }
        let trap_cx_ppn = memory_set.translate(mem, VirtPageNum::from(TRAP_CONTEXT_USER)).unwrap();
        let trap_cx_ppn_pa = trap_cx_ppn.0 * PAGE_SIZE;
        let child_user_token = memory_set.token();
        proof {
            lemma_room_for_stack(allocator@);
        }
        let kernel_stack = KernelStack::new(pid.0, allocator);
        proof {
            assert(a1.is_free(kernel_stack.bottom_ppn));
            assert forall|x: u64| #[trigger] allocator@.is_free(x) implies a1.is_free(x) && a0.is_free(x) by {
                assert(a1.is_free(x));
            }
            lemma_user_space_ok_shrink(mem, &memory_set, a1, allocator@, tf);
            lemma_user_space_ok_shrink(mem, &self.inner.memory_set, a1, allocator@, tf);
        }
        let kernel_stack_top = kernel_stack.top();
        let task_cx = TaskContext::goto_trap_return(kernel_stack_top, trap_cx_ppn, restore_offset);
        let mut cx = load_trap_cx(mem, trap_cx_ppn);
        let ghost words0 = trap_cx_words(cx);
        cx.kernel_sp = kernel_stack_top;
        cx.trap_cx_ppn_pa = trap_cx_ppn_pa;
        cx.user_satp = child_user_token;
        let ghost m2 = *mem;
        store_trap_cx(mem, trap_cx_ppn, &cx);
        proof {
            let f = trap_cx_ppn.0;
            // The child's trap frame is a frame of its own, outside both trees.
            let tv = trampoline_vpn(TRAMPOLINE);
            assert(vpn_sv39(t) != vpn_sv39(tv)) by {
                crate::address::lemma_high_pages();
            }
            assert(walk(&m1, croot, t) is Some && walk(&m1, croot, tv) is Some);
            assert(f != tf);
            assert(a0.is_free(f));
            assert forall|p: u64| #[trigger] in_tree(&m2, croot, p) implies mem.frame(p) == m2.frame(p) by {
                assert(walk(&m2, croot, t) is Some);
            }
            lemma_user_space_ok_frames(&m2, mem, &memory_set, allocator@, tf);
            assert forall|j: int, k: int|
                0 <= j < pareas.len() && 0 <= k < pareas[j].vpn_range.len() && crate::fork_space::first_in_slot(
                    pareas,
                    j,
                    (pareas[j].vpn_range.start.0 + k) as u64,
                ) implies #[trigger] walk(mem, croot, (pareas[j].vpn_range.start.0 + k) as u64) is Some && crate::pte::pte_bits_flags(
                walk(mem, croot, (pareas[j].vpn_range.start.0 + k) as u64)->0.bits,
            ) == pareas[j].map_perm@ | crate::pte::FLAG_V by {
                assert(walk(&m1, croot, (pareas[j].vpn_range.start.0 + k) as u64) is Some);
            }
            assert forall|p: u64| #[trigger] in_tree(&m0, proot, p) implies m1.frame(p) == m0.frame(p) by {
                assert(!a0.is_free(p));
            }
            lemma_agree_on_tree(&m0, &m1, proot);
            assert forall|p: u64| #[trigger] in_tree(&m2, proot, p) implies mem.frame(p) == m2.frame(p) by {
                assert(in_tree(&m0, proot, p));
                assert(!a0.is_free(p));
            }
            lemma_user_space_ok_frames(&m2, mem, &self.inner.memory_set, allocator@, tf);
            assert(trap_cx_words(cx) =~= words0.update(35, kernel_stack_top).update(37, child_user_token).update(40, trap_cx_ppn_pa));
            let i = choose|i: int| 0 <= i < pareas.len() && (#[trigger] pareas[i]).vpn_range.start.0 <= t < pareas[i].vpn_range.end.0;
            let k = t - pareas[i].vpn_range.start.0;
            assert((pareas[i].vpn_range.start.0 + k) as u64 == t);
            assert(page_copied(&m1, croot, &m0, proot, (pareas[i].vpn_range.start.0 + k) as u64));
            assert(stored_trap_cx(&m1, f) == stored_trap_cx(&m0, trap_cx_frame(&m0, &self.inner.memory_set)));
            assert forall|ii: int, kk: int|
                0 <= ii < pareas.len() && 0 <= kk < pareas[ii].vpn_range.len() && pte_ppn(
                    walk(mem, croot, (pareas[ii].vpn_range.start.0 + kk) as u64)->0,
                ) != f implies #[trigger] page_copied(mem, croot, &m0, proot, (pareas[ii].vpn_range.start.0 + kk) as u64) by {
                assert(page_copied(&m1, croot, &m0, proot, (pareas[ii].vpn_range.start.0 + kk) as u64));
            }
        }
        self.inner.children.push(pid.0);
        TaskControlBlock {
            pid,
            kernel_stack,
            inner: TaskControlBlockInner {
                trap_cx_ppn,
                base_size: self.inner.base_size,
                task_cx,
                task_status: TaskStatus::Ready,
                memory_set,
                parent: Some(self.pid.0),
                children: Vec::new(),
                exit_code: 0,
            },
        }
    }

    /// The pid of the process.
    pub fn getpid(&self) -> (r: u64)
        ensures
            r == self.pid.0,
    {
        self.pid.0
    }
}

} // verus!
