use rcore_os::address::{PhysAddr, PhysPageNum, VirtPageNum};
use rcore_os::config::{TRAMPOLINE, TRAP_CONTEXT_USER};
use rcore_os::elf::{u16_from_le, u32_from_le, u64_from_le, ElfFile, ProgramHeader};
use rcore_os::frame::FrameAllocator;
use rcore_os::kernel_memory::{init_kernel_memory, init_trampoline, kernel_memory_fits, remap_test};
use rcore_os::memory_set::MemorySet;
use rcore_os::phys_mem::PhysMem;
use rcore_os::pid::PidAllocator;
use rcore_os::process::{PidHandle, TaskControlBlock, TaskStatus};
use rcore_os::processor::{current_trap_cx, current_user_token, exit_current_and_run_next, take_current_task, waitpid, Processor};

const STEXT: u64 = 0x8020_0000;
const EKERNEL: u64 = 0x8022_0000;
const CODE: [u8; 8] = [0x13, 0x05, 0x10, 0x00, 0x73, 0x00, 0x00, 0x00];

fn put(v: &mut Vec<u8>, off: usize, bytes: &[u8]) {
    v[off..off + bytes.len()].copy_from_slice(bytes);
}

/// A small ELF64 file with one loadable segment holding `code` at `vaddr` (read, execute).
fn elf_image(entry: u64, vaddr: u64, code: &[u8], memsz: u64) -> Vec<u8> {
    let mut v = vec![0u8; 120 + code.len()];
    put(&mut v, 0, &[0x7f, b'E', b'L', b'F', 2, 1, 1]);
    put(&mut v, 24, &entry.to_le_bytes());
    put(&mut v, 32, &64u64.to_le_bytes());
    put(&mut v, 54, &56u16.to_le_bytes());
    put(&mut v, 56, &1u16.to_le_bytes());
    put(&mut v, 64, &1u32.to_le_bytes());
    put(&mut v, 68, &5u32.to_le_bytes());
    put(&mut v, 72, &120u64.to_le_bytes());
    put(&mut v, 80, &vaddr.to_le_bytes());
    put(&mut v, 96, &(code.len() as u64).to_le_bytes());
    put(&mut v, 104, &memsz.to_le_bytes());
    put(&mut v, 120, code);
    v
}

fn kernel() -> (PhysMem, FrameAllocator, MemorySet, PhysPageNum) {
    let mut mem = PhysMem::new();
    let mut alloc = FrameAllocator::new();
    let trampoline = [0xaau8, 0xbb, 0xcc];
    let (ks, tf) = init_kernel_memory(&mut mem, &mut alloc, STEXT, EKERNEL, &trampoline);
    (mem, alloc, ks, tf)
}

fn page_bytes(mem: &PhysMem, ppn: PhysPageNum, n: u64) -> Vec<u8> {
    (0..n).map(|i| mem.read_byte(PhysAddr(ppn.0 * 4096 + i))).collect()
}

#[test]
fn trampoline_copied_into_new_frame() {
    let mut mem = PhysMem::new();
    let mut alloc = FrameAllocator::new();
    alloc.init(PhysPageNum(0x80300), PhysPageNum(0x80400));
    let f = init_trampoline(&mut mem, &mut alloc, &[1, 2, 3, 4, 5, 6, 7, 8, 9]);
    assert_eq!(f, PhysPageNum(0x80300));
    assert_eq!(page_bytes(&mem, f, 10), vec![1, 2, 3, 4, 5, 6, 7, 8, 9, 0]);
    assert_eq!(alloc.allocate(), Some(PhysPageNum(0x80301)));
}

#[test]
fn kernel_space_layout() {
    let (mem, _alloc, ks, tf) = kernel();
    // the frames start after the kernel image and its 1 MiB heap
    assert_eq!(tf, PhysPageNum(0x80220 + 256));
    assert_eq!(page_bytes(&mem, tf, 4), vec![0xaa, 0xbb, 0xcc, 0]);
    assert!(remap_test(&ks, &mem));
    assert_eq!(ks.translate(&mem, VirtPageNum::from(TRAMPOLINE)), Some(tf));
    // the kernel image and the heap are mapped to themselves
    assert_eq!(ks.translate(&mem, VirtPageNum(0x80200)), Some(PhysPageNum(0x80200)));
    assert_eq!(ks.translate(&mem, VirtPageNum(0x8021f)), Some(PhysPageNum(0x8021f)));
    assert_eq!(ks.translate(&mem, VirtPageNum(0x80300)), Some(PhysPageNum(0x80300)));
    assert_eq!(ks.translate(&mem, VirtPageNum(0x8001f)), None);
    assert_eq!(ks.token(), (8u64 << 60) | ks.page_table.root_ppn.0);
    assert_eq!(ks.page_table.frames[0], ks.page_table.root_ppn);
}

#[test]
fn empty_kernel_space_fails_remap_test() {
    let mut mem = PhysMem::new();
    let mut alloc = FrameAllocator::new();
    alloc.init(PhysPageNum(0x80400), PhysPageNum(0x80800));
    let ms = MemorySet::new_bare(&mut mem, &mut alloc);
    assert!(!remap_test(&ms, &mem));
}

#[test]
fn from_elf_maps_segment_stack_and_trap_page() {
    let (mut mem, mut alloc, ks, tf) = kernel();
    let elf = elf_image(0x1000, 0x1000, &CODE, 0x10);
    let (ms, sp, entry) = MemorySet::from_elf(&elf, &ks, &mut mem, &mut alloc);
    assert_eq!(entry, 0x1000);
    // the user stack starts at the page after the segment and is 16 KiB
    assert_eq!(sp, 0x2000 + 16384);
    let code_frame = ms.translate(&mem, VirtPageNum(1)).unwrap();
    assert_eq!(page_bytes(&mem, code_frame, 9), vec![0x13, 0x05, 0x10, 0x00, 0x73, 0x00, 0x00, 0x00, 0]);
    for vpn in 2..6 {
        assert!(ms.translate(&mem, VirtPageNum(vpn)).is_some());
    }
    assert!(ms.translate(&mem, VirtPageNum(6)).is_none());
    assert!(ms.translate(&mem, VirtPageNum::from(TRAP_CONTEXT_USER)).is_some());
    assert_eq!(ms.translate(&mem, VirtPageNum::from(TRAMPOLINE)), Some(tf));
}

#[test]
fn new_process_starts_at_entry() {
    let (mut mem, mut alloc, ks, _tf) = kernel();
    let elf = elf_image(0x1004, 0x1000, &CODE, 0x10);
    let mut pids = PidAllocator::new();
    let p = TaskControlBlock::new(&elf, &mut pids, &ks, &mut mem, &mut alloc, 0x8020_1000, 0x60, 0x122);
    assert_eq!(p.pid, PidHandle(0));
    assert_eq!(p.getpid(), 0);
    assert_eq!(p.inner.task_status, TaskStatus::Ready);
    assert!(!p.inner.is_zombie());
    assert_eq!(p.inner.base_size, 0x2000 + 16384);
    let top = p.kernel_stack.bottom_ppn * 4096 + 16384;
    assert_eq!(p.inner.task_cx.ra, TRAMPOLINE + 0x60);
    assert_eq!(p.inner.task_cx.sp, top);
    assert_eq!(p.inner.task_cx.s0, p.inner.trap_cx_ppn.0 * 4096);
    let cx = p.inner.get_trap_cx(&mem);
    assert_eq!(cx.sepc, 0x1004);
    assert_eq!(cx.x[2], 0x2000 + 16384);
    assert_eq!(cx.x[1], 0);
    // previous privilege User (bit 8 clear), SPIE set, SIE clear, FS Dirty
    assert_eq!(cx.sstatus, 0x6020);
    assert_eq!(cx.kernel_satp, ks.token());
    assert_eq!(cx.kernel_sp, top);
    assert_eq!(cx.trap_handler, 0x8020_1000);
    assert_eq!(cx.user_satp, p.inner.get_user_token());
    assert_eq!(cx.trap_cx_user, TRAP_CONTEXT_USER);
    assert_eq!(cx.trap_cx_kernel, TRAP_CONTEXT_USER);
    assert_eq!(cx.trap_cx_ppn_pa, p.inner.trap_cx_ppn.0 * 4096);
    assert_eq!(
        p.inner.memory_set.translate(&mem, VirtPageNum::from(TRAP_CONTEXT_USER)),
        Some(p.inner.trap_cx_ppn)
    );
}

#[test]
fn fork_copies_memory_and_trap_context() {
    let (mut mem, mut alloc, ks, _tf) = kernel();
    let elf = elf_image(0x1000, 0x1000, &CODE, 0x10);
    let mut pids = PidAllocator::new();
    let mut parent = TaskControlBlock::new(&elf, &mut pids, &ks, &mut mem, &mut alloc, 0x8020_1000, 0x60, 0);
    let child = parent.fork(&mut pids, &ks, &mut mem, &mut alloc, 0x60);
    assert_eq!(parent.pid, PidHandle(0));
    assert_eq!(child.pid, PidHandle(1));
    assert_eq!(child.inner.parent, Some(0));
    assert_eq!(parent.inner.children, vec![1]);
    assert!(child.inner.children.is_empty());
    assert_eq!(child.inner.base_size, parent.inner.base_size);
    assert_eq!(child.inner.memory_set.areas.len(), parent.inner.memory_set.areas.len() + 1);
    let pframe = parent.inner.memory_set.translate(&mem, VirtPageNum(1)).unwrap();
    let cframe = child.inner.memory_set.translate(&mem, VirtPageNum(1)).unwrap();
    assert_ne!(pframe, cframe);
    assert_eq!(page_bytes(&mem, pframe, 4096), page_bytes(&mem, cframe, 4096));
    // writing to the parent's page leaves the child's copy alone
    mem.write_byte(PhysAddr(pframe.0 * 4096), 0xee);
    assert_eq!(mem.read_byte(PhysAddr(cframe.0 * 4096)), 0x13);
    let pcx = parent.inner.get_trap_cx(&mem);
    let ccx = child.inner.get_trap_cx(&mem);
    assert_eq!(ccx.sepc, pcx.sepc);
    assert_eq!(ccx.x, pcx.x);
    assert_eq!(ccx.sstatus, pcx.sstatus);
    assert_eq!(ccx.kernel_sp, child.kernel_stack.bottom_ppn * 4096 + 16384);
    assert_eq!(ccx.user_satp, child.inner.get_user_token());
    assert_eq!(ccx.trap_cx_ppn_pa, child.inner.trap_cx_ppn.0 * 4096);
    assert_ne!(child.inner.get_user_token(), parent.inner.get_user_token());
}

#[test]
fn exec_replaces_program_and_keeps_pid() {
    let (mut mem, mut alloc, ks, _tf) = kernel();
    let elf = elf_image(0x1000, 0x1000, &CODE, 0x10);
    let mut pids = PidAllocator::new();
    pids.allocate();
    pids.allocate();
    pids.allocate();
    let mut p = TaskControlBlock::new(&elf, &mut pids, &ks, &mut mem, &mut alloc, 0x8020_1000, 0x60, 0);
    let old_stack = p.kernel_stack;
    let other = elf_image(0x4000, 0x4000, &[0x6f, 0, 0, 0], 0x2000);
    p.exec(&other, &ks, &mut mem, &mut alloc, 0x8020_1000, 0x60, 0);
    assert_eq!(p.getpid(), 3);
    assert_eq!(p.kernel_stack, old_stack);
    let cx = p.inner.get_trap_cx(&mem);
    assert_eq!(cx.sepc, 0x4000);
    // the segment takes pages 4 and 5, the stack starts at page 6
    assert_eq!(cx.x[2], 0x6000 + 16384);
    assert!(p.inner.memory_set.translate(&mem, VirtPageNum(1)).is_none());
    let f = p.inner.memory_set.translate(&mem, VirtPageNum(4)).unwrap();
    assert_eq!(page_bytes(&mem, f, 4), vec![0x6f, 0, 0, 0]);
    assert!(p.inner.memory_set.translate(&mem, VirtPageNum(5)).is_some());
}

#[test]
fn processor_runs_and_takes_back_a_task() {
    let (mut mem, mut alloc, ks, _tf) = kernel();
    let elf = elf_image(0x1000, 0x1000, &CODE, 0x10);
    let mut pids = PidAllocator::new();
    pids.allocate();
    let p = TaskControlBlock::new(&elf, &mut pids, &ks, &mut mem, &mut alloc, 0x8020_1000, 0x60, 0);
    let task_cx = p.inner.task_cx;
    let trap_pa = p.inner.trap_cx_ppn.0 * 4096;
    let token = p.inner.get_user_token();
    let mut proc = Processor::new();
    assert!(proc.current().is_none());
    let (cx, pa) = proc.run_task(p);
    assert_eq!(cx, task_cx);
    assert_eq!(pa, trap_pa);
    assert_eq!(proc.current().unwrap().inner.task_status, TaskStatus::Running);
    assert_eq!(current_user_token(&proc), token);
    assert_eq!(current_trap_cx(&proc, &mem).sepc, 0x1000);
    let back = take_current_task(&mut proc).unwrap();
    assert_eq!(back.getpid(), 1);
    assert!(proc.current().is_none());
    assert!(take_current_task(&mut proc).is_none());
}

#[test]
fn kernel_memory_fits_small_kernel_only() {
    assert!(kernel_memory_fits(STEXT, EKERNEL));
    // a kernel image that ends just below the last 2 MiB leaves no aligned frame for tables
    assert!(!kernel_memory_fits(0x8000_0000, 0x87e0_0000));
}

#[test]
fn elf_header_and_program_headers() {
    let elf = elf_image(0x1004, 0x1000, &CODE, 0x10);
    let f = ElfFile::new(&elf).unwrap();
    assert_eq!(f.header.pt2.e_entry, 0x1004);
    assert_eq!(f.header.phoff, 64);
    assert_eq!(f.header.phentsize, 56);
    assert_eq!(f.header.phnum, 1);
    let phs = f.program_iter();
    assert_eq!(
        phs,
        vec![ProgramHeader { p_type: 1, p_flags: 5, p_offset: 120, p_vaddr: 0x1000, p_filesz: 8, p_memsz: 0x10 }]
    );
    assert_eq!(ProgramHeader::read(&elf, 64), phs[0]);
}

#[test]
fn elf_rejects_bad_files() {
    let elf = elf_image(0x1004, 0x1000, &CODE, 0x10);
    assert!(ElfFile::new(&elf[..63]).is_none());
    let mut bad_magic = elf.clone();
    bad_magic[1] = b'X';
    assert!(ElfFile::new(&bad_magic).is_none());
    let mut big_endian = elf.clone();
    big_endian[5] = 2;
    assert!(ElfFile::new(&big_endian).is_none());
    let mut elf32 = elf;
    elf32[4] = 1;
    assert!(ElfFile::new(&elf32).is_none());
}

#[test]
fn little_endian_reads() {
    let b = [0x01, 0x02, 0x03, 0x04, 0x05, 0x06, 0x07, 0x08, 0x09];
    assert_eq!(u16_from_le(&b), 0x0201);
    assert_eq!(u32_from_le(&b), 0x0403_0201);
    assert_eq!(u64_from_le(&b), 0x0807_0605_0403_0201);
}

#[test]
fn pids_are_recycled_last_first() {
    let mut pids = PidAllocator::new();
    let a = pids.allocate();
    let b = pids.allocate();
    let c = pids.allocate();
    assert_eq!((a, b, c), (PidHandle(0), PidHandle(1), PidHandle(2)));
    pids.dealloc(a);
    pids.dealloc(c);
    assert_eq!(pids.allocate(), PidHandle(2));
    assert_eq!(pids.allocate(), PidHandle(0));
    assert_eq!(pids.allocate(), PidHandle(3));
}

#[test]
fn exit_gives_back_the_trap_context_frame() {
    let (mut mem, mut alloc, ks, _tf) = kernel();
    let elf = elf_image(0x1000, 0x1000, &CODE, 0x10);
    let mut pids = PidAllocator::new();
    let mut init = TaskControlBlock::new(&elf, &mut pids, &ks, &mut mem, &mut alloc, 0x8020_1000, 0x60, 0);
    let task = TaskControlBlock::new(&elf, &mut pids, &ks, &mut mem, &mut alloc, 0x8020_1000, 0x60, 0);
    let trap_frame = task.inner.trap_cx_ppn;
    let code_frame = task.inner.memory_set.translate(&mem, VirtPageNum(1)).unwrap();
    let mut others = Vec::new();
    let mut proc = Processor::new();
    proc.run_task(task);
    let _zombie = exit_current_and_run_next(&mut proc, 0, &mut init, &mut others, &mut alloc);
    // the trap-context page is the last area: its frame comes back first
    assert_eq!(alloc.allocate(), Some(trap_frame));
    // then the four stack pages, then the code page
    let mut freed = Vec::new();
    for _ in 0..5 {
        freed.push(alloc.allocate().unwrap());
    }
    assert_eq!(freed[4], code_frame);
}

#[test]
fn exit_makes_a_zombie_and_hands_children_to_init() {
    let (mut mem, mut alloc, ks, _tf) = kernel();
    let elf = elf_image(0x1000, 0x1000, &CODE, 0x10);
    let mut pids = PidAllocator::new();
    let mut init = TaskControlBlock::new(&elf, &mut pids, &ks, &mut mem, &mut alloc, 0x8020_1000, 0x60, 0);
    let mut parent = init.fork(&mut pids, &ks, &mut mem, &mut alloc, 0x60);
    let child = parent.fork(&mut pids, &ks, &mut mem, &mut alloc, 0x60);
    let code_frame = parent.inner.memory_set.translate(&mem, VirtPageNum(1)).unwrap();
    let mut others = vec![child];
    let mut proc = Processor::new();
    proc.run_task(parent);
    let zombie = exit_current_and_run_next(&mut proc, 42, &mut init, &mut others, &mut alloc);
    assert!(proc.current().is_none());
    assert_eq!(zombie.getpid(), 1);
    assert!(zombie.inner.is_zombie());
    assert_eq!(zombie.inner.exit_code, 42);
    assert!(zombie.inner.children.is_empty());
    assert!(zombie.inner.memory_set.areas.is_empty());
    assert_eq!(init.inner.children, vec![1, 2]);
    assert_eq!(others[0].inner.parent, Some(0));
    // the data frames of the user areas went back to the allocator, the trap context's last
    let mut freed = Vec::new();
    for _ in 0..10 {
        freed.push(alloc.allocate().unwrap());
    }
    assert!(freed.contains(&code_frame));
    // the init process reaps the zombie, then finds its other child still running
    let mut procs = others;
    procs.push(zombie);
    assert_eq!(waitpid(&mut init, &mut procs, 7), (-1, 0));
    assert_eq!(waitpid(&mut init, &mut procs, -1), (1, 42));
    assert_eq!(init.inner.children, vec![2]);
    assert_eq!(procs.len(), 1);
    assert_eq!(waitpid(&mut init, &mut procs, -1), (-2, 0));
    assert_eq!(waitpid(&mut init, &mut procs, 2), (-2, 0));
}

#[test]
fn user_pages_get_their_permissions() {
    let (mut mem, mut alloc, ks, _tf) = kernel();
    let elf = elf_image(0x1000, 0x1000, &CODE, 0x10);
    let mut pids = PidAllocator::new();
    let mut parent = TaskControlBlock::new(&elf, &mut pids, &ks, &mut mem, &mut alloc, 0x8020_1000, 0x60, 0);
    let child = parent.fork(&mut pids, &ks, &mut mem, &mut alloc, 0x60);
    for p in [&parent, &child] {
        let pt = &p.inner.memory_set.page_table;
        let flags = |vpn: u64| pt.translate(&mem, VirtPageNum(vpn)).unwrap().flags().bits();
        // code: user, readable, executable; stack: user, readable, writable;
        // trap context: readable, writable, kept from the user; trampoline: readable, executable
        assert_eq!(flags(1), 0x1b);
        for vpn in 2..6 {
            assert_eq!(flags(vpn), 0x17);
        }
        assert_eq!(flags(TRAP_CONTEXT_USER / 4096), 0x07);
        assert_eq!(flags(TRAMPOLINE / 4096), 0x0b);
    }
}
