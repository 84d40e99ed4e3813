use rcore_os::address::PhysPageNum;
use rcore_os::batch;
use rcore_os::config::{TRAMPOLINE, TRAP_CONTEXT_USER};
use rcore_os::frame::FrameAllocator;
use rcore_os::loader::get_app_data;
use rcore_os::phys_mem::PhysMem;
use rcore_os::task::{
    exit_current_and_run_next, get_time_ms, init, next_trigger, suspend_current_and_run_next, KernelStack,
    TaskContext, TaskManager, TaskStatus,
};
use rcore_os::trap::{trap_action, trap_cause, TrapAction, TrapCause, TrapContext};
use rcore_os::user::{getchar_step, sleep_continues, wait_step, WaitStep};

fn boot(num_app: usize) -> (TaskManager, PhysMem, FrameAllocator) {
    let mut tm = TaskManager::new(num_app);
    let mut mem = PhysMem::new();
    let mut alloc = FrameAllocator::new();
    alloc.init(PhysPageNum(0x80400), PhysPageNum(0x80500));
    init(&mut tm, num_app, 0x8000_0000_0008_0321, 0x8020_1000, 0x60, 0, &mut mem, &mut alloc);
    (tm, mem, alloc)
}

#[test]
fn kernel_stack_takes_four_frames() {
    let mut alloc = FrameAllocator::new();
    alloc.init(PhysPageNum(100), PhysPageNum(110));
    let ks = KernelStack::new(0, &mut alloc);
    assert_eq!(ks.bottom_ppn, 100);
    assert_eq!(ks.top(), 100 * 4096 + 16384);
    assert_eq!(alloc.allocate(), Some(PhysPageNum(104)));
}

#[test]
fn init_builds_one_task_per_app() {
    let (tm, mem, mut alloc) = boot(3);
    assert_eq!(tm.num_app, 3);
    assert_eq!(tm.inner.current_task, 0);
    assert_eq!(tm.inner.tasks.len(), 3);
    for (i, t) in tm.inner.tasks.iter().enumerate() {
        let bottom = 0x80400 + 4 * i as u64;
        let top = bottom * 4096 + 16384;
        assert_eq!(t.kernel_stack.bottom_ppn, bottom);
        assert_eq!(t.trap_cx_ppn, bottom + 3);
        assert_eq!(t.task_status, if i == 0 { TaskStatus::Running } else { TaskStatus::Ready });
        assert_eq!(t.task_cx, TaskContext::goto_trap_return(top, PhysPageNum(bottom + 3), 0x60));
        assert_eq!(t.task_cx.ra, TRAMPOLINE + 0x60);
        assert!(t.memory_set.is_none());
        assert_eq!(t.get_trap_cx_ptr(), (bottom + 3) * 4096);
        let cx = t.get_trap_cx(&mem);
        assert_eq!(cx.sepc, 0);
        assert_eq!(cx.x, [0u64; 32]);
        assert_eq!(cx.kernel_satp, 0x8000_0000_0008_0321);
        assert_eq!(cx.kernel_sp, top);
        assert_eq!(cx.trap_handler, 0x8020_1000);
        assert_eq!(cx.user_satp, 0);
        assert_eq!(cx.trap_cx_user, 0);
        assert_eq!(cx.trap_cx_kernel, TRAP_CONTEXT_USER);
        assert_eq!(cx.trap_cx_ppn_pa, (bottom + 3) * 4096);
        assert_eq!(cx.sstatus, 0x6020);
    }
    assert_eq!(alloc.allocate(), Some(PhysPageNum(0x80400 + 12)));
    let (sscratch, first) = tm.run_first_task(&mem);
    assert_eq!(sscratch, 0);
    assert_eq!(first, tm.inner.tasks[0].task_cx);
}

#[test]
fn round_robin_switching() {
    let (mut tm, _mem, _alloc) = boot(3);
    assert_eq!(tm.find_next_task(), Some(1));
    assert_eq!(suspend_current_and_run_next(&mut tm), Some((0, 1)));
    assert_eq!(tm.inner.tasks[0].task_status, TaskStatus::Ready);
    assert_eq!(tm.inner.tasks[1].task_status, TaskStatus::Running);
    assert_eq!(exit_current_and_run_next(&mut tm), Some((1, 2)));
    assert_eq!(tm.inner.tasks[1].task_status, TaskStatus::Exited);
    assert_eq!(tm.inner.tasks[2].task_status, TaskStatus::Running);
    assert_eq!(exit_current_and_run_next(&mut tm), Some((2, 0)));
    assert_eq!(tm.inner.tasks[0].task_status, TaskStatus::Running);
    assert_eq!(exit_current_and_run_next(&mut tm), None);
    assert_eq!(tm.inner.tasks[0].task_status, TaskStatus::Exited);
    assert_eq!(tm.inner.current_task, 0);
    assert_eq!(tm.find_next_task(), None);
}

#[test]
fn suspend_alone_keeps_running_the_same_task() {
    let (mut tm, _mem, _alloc) = boot(1);
    assert_eq!(suspend_current_and_run_next(&mut tm), Some((0, 0)));
    assert_eq!(tm.inner.tasks[0].task_status, TaskStatus::Running);
    assert_eq!(TaskManager::new(0).find_next_task(), None);
}

#[test]
fn timer_arithmetic() {
    assert_eq!(get_time_ms(12_500_000), 1000);
    assert_eq!(get_time_ms(12_499), 0);
    assert_eq!(get_time_ms(25_000), 2);
    assert_eq!(next_trigger(1_000), 126_000);
}

#[test]
fn trap_causes_and_actions() {
    assert_eq!(trap_cause(8), TrapCause::UserEnvCall);
    assert_eq!(trap_cause(15), TrapCause::StorePageFault);
    assert_eq!(trap_cause(2), TrapCause::IllegalInstruction);
    assert_eq!(trap_cause((1u64 << 63) | 5), TrapCause::SupervisorTimer);
    assert_eq!(trap_cause((1u64 << 63) | 9), TrapCause::Other);
    assert_eq!(trap_cause(5), TrapCause::LoadFault);
    assert_eq!(trap_action(TrapCause::UserEnvCall), TrapAction::Syscall);
    assert_eq!(trap_action(TrapCause::LoadPageFault), TrapAction::Exit(-2));
    assert_eq!(trap_action(TrapCause::IllegalInstruction), TrapAction::Exit(-3));
    assert_eq!(trap_action(TrapCause::SupervisorTimer), TrapAction::Suspend);
    assert_eq!(trap_action(TrapCause::Other), TrapAction::Unsupported);
}

#[test]
fn syscall_entry_and_exit() {
    let mut cx = TrapContext::app_init_context(0x1000, 0x8000, 1, 2, 3, 4, 5, 6, 7, 0x100);
    assert_eq!(cx.sstatus, 0x6020);
    cx.x[17] = 64;
    cx.x[10] = 1;
    cx.x[11] = 0x2000;
    cx.x[12] = 5;
    let (id, args) = cx.begin_syscall();
    assert_eq!(id, 64);
    assert_eq!(args, [1, 0x2000, 5]);
    assert_eq!(cx.sepc, 0x1004);
    cx.end_syscall(-1);
    assert_eq!(cx.x[10], u64::MAX);
    cx.sstatus = 0x2000;
    cx.set_fs_dirty();
    assert_eq!(cx.sstatus, 0x6000);
}

#[test]
fn user_library_steps() {
    assert_eq!(wait_step(-2), WaitStep::Retry);
    assert_eq!(wait_step(-1), WaitStep::Done(-1));
    assert_eq!(wait_step(5), WaitStep::Done(5));
    assert!(sleep_continues(10, 5, 10));
    assert!(!sleep_continues(15, 5, 10));
    assert_eq!(getchar_step(1, b'a'), Some(b'a'));
    assert_eq!(getchar_step(0, b'a'), None);
}

#[test]
fn app_data_from_boundaries() {
    let table = [0x8020_0000u64, 0x8020_1000, 0x8020_1800];
    assert_eq!(get_app_data(&table, 0), (0x8020_0000, 0x1000));
    assert_eq!(get_app_data(&table, 1), (0x8020_1000, 0x800));
}

#[test]
fn batch_loading_and_contexts() {
    assert_eq!(batch::app_base_address(2), 0x8040_0000 + 2 * 0x20000);
    let plan = batch::app_load_plan(&vec![100, 150, 400]);
    assert_eq!(plan, vec![(0x8040_0000, 100, 50), (0x8042_0000, 150, 250)]);
    assert!(batch::app_load_plan(&vec![7]).is_empty());
    let (trap_cx, ptr, task_cx) = batch::init_app_cx(1, 0x8030_0000, 0x8031_0000, 0x8020_0800, 0x100);
    assert_eq!(trap_cx.sepc, 0x8042_0000);
    assert_eq!(trap_cx.x[2], 0x8031_0000);
    assert_eq!(trap_cx.sstatus, 0);
    assert_eq!(ptr, 0x8030_0000 - 272);
    assert_eq!(task_cx, batch::TaskContext::goto_trap_return(0x8030_0000 - 272, 0x8020_0800));
    assert_eq!(task_cx.ra, 0x8020_0800);
}

#[test]
fn batch_syscalls() {
    assert_eq!(batch::syscall_kind(64), Some(batch::SyscallKind::Write));
    assert_eq!(batch::syscall_kind(93), Some(batch::SyscallKind::Exit));
    assert_eq!(batch::syscall_kind(124), Some(batch::SyscallKind::Yield));
    assert_eq!(batch::syscall_kind(169), None);
    assert_eq!(batch::write_result(1, 5, true), 5);
    assert_eq!(batch::write_result(1, 5, false), -1);
    assert_eq!(batch::write_result(2, 5, true), -1);
    assert_eq!(batch::sys_write(1, 3), 3);
    assert_eq!(batch::sys_write(0, 3), -1);
}

#[test]
fn batch_round_robin() {
    let mut tm = batch::TaskManager::new();
    let cxs: Vec<batch::TaskContext> = (0..3).map(|i| batch::TaskContext::goto_trap_return(0x1000 * (i + 1), 0x80)).collect();
    tm.init(&cxs);
    assert_eq!(tm.num_app, 3);
    assert_eq!(tm.run_first_task(), cxs[0]);
    assert_eq!(tm.inner.tasks[0].task_status, batch::TaskStatus::Running);
    tm.mark_current_suspended();
    assert_eq!(tm.run_next_task(), Some((cxs[0], cxs[1])));
    assert_eq!(tm.inner.current_task, 1);
    tm.mark_current_exited();
    assert_eq!(tm.run_next_task(), Some((cxs[1], cxs[2])));
    tm.mark_current_exited();
    assert_eq!(tm.run_next_task(), Some((cxs[2], cxs[0])));
    tm.mark_current_exited();
    assert_eq!(tm.run_next_task(), None);
    assert_eq!(tm.inner.tasks[3].task_status, batch::TaskStatus::UnInit);
}

#[test]
fn kernel_stack_is_contiguous_even_with_recycled_frames() {
    let mut alloc = FrameAllocator::new();
    alloc.init(PhysPageNum(100), PhysPageNum(110));
    let p = alloc.allocate().unwrap();
    alloc.dealloc(p);
    let ks = KernelStack::new(0, &mut alloc);
    assert_eq!(ks.bottom_ppn, 101);
    assert_eq!(ks.top(), 105 * 4096);
    assert_eq!(alloc.allocate(), Some(PhysPageNum(100)));
    assert_eq!(alloc.allocate(), Some(PhysPageNum(105)));
}

#[test]
fn kernel_stack_takes_frames_as_handed_out_when_few_are_untouched() {
    let mut alloc = FrameAllocator::new();
    alloc.init(PhysPageNum(100), PhysPageNum(104));
    let a = alloc.allocate().unwrap();
    let b = alloc.allocate().unwrap();
    alloc.dealloc(a);
    alloc.dealloc(b);
    // two recycled frames (101 on top) and two untouched ones: the recycled go first
    let ks = KernelStack::new(0, &mut alloc);
    assert_eq!(ks.bottom_ppn, 101);
    assert_eq!(alloc.allocate(), None);
}
