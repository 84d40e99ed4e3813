//! The trap context saved when a user program traps into the kernel, and the decision the
//! trap handler takes for each cause.
use vstd::prelude::*;

verus! {

/// The bits of `sstatus` that the `riscv` crate keeps in an `Sstatus` value (on RV64).
pub const SSTATUS_MASK: u64 = 0x8000_0003_000d_e762;

/// A wrapper for `riscv::register::sstatus::Sstatus::set_spp` with `SPP::User`, on the value
/// made by `Sstatus::from_bits`: the legal bits of `bits` with the previous-privilege bit
/// (bit 8) cleared, as `bits()` gives them back.
#[verifier::external_body]
pub(crate) fn sstatus_with_user_spp(bits: u64) -> (r: u64)
    ensures
        r == (bits & SSTATUS_MASK) & !0x100u64,
{
    let mut s = riscv::register::sstatus::Sstatus::from_bits(bits as usize);
    s.set_spp(riscv::register::sstatus::SPP::User);
    s.bits() as u64
}

/// The `sstatus` a user program starts with: previous privilege User, SPIE set, SIE clear,
/// and the floating-point state Dirty (bits 14..13 set).
pub open spec fn user_sstatus(bits: u64) -> u64 {
    (((((bits & SSTATUS_MASK) & !0x100u64) | 0x20u64) & !0x2u64) & !0x6000u64) | 0x6000u64
}

/// The registers and kernel data saved on a trap from user mode (41 machine words).
#[derive(Clone, Copy)]
pub struct TrapContext {
    /// The general-purpose registers x0..x31.
    pub x: [u64; 32],
    pub sstatus: u64,
    pub sepc: u64,
    /// The `satp` of the kernel address space.
    pub kernel_satp: u64,
    /// The top of the kernel stack of the program that trapped.
    pub kernel_sp: u64,
    /// The address of the trap handler.
    pub trap_handler: u64,
    /// The `satp` of the user address space.
    pub user_satp: u64,
    /// The virtual address of this context in the user address space.
    pub trap_cx_user: u64,
    /// The address of this context the kernel puts in `sscratch`.
    pub trap_cx_kernel: u64,
    /// The physical address of this context (reachable through the identity mapping).
    pub trap_cx_ppn_pa: u64,
}

impl TrapContext {
    /// Sets the stack pointer (x2).
    pub fn set_sp(&mut self, sp: u64)
        ensures
            final(self).x@ == old(self).x@.update(2, sp),
            final(self).sstatus == old(self).sstatus,
            final(self).sepc == old(self).sepc,
            final(self).kernel_satp == old(self).kernel_satp,
            final(self).kernel_sp == old(self).kernel_sp,
            final(self).trap_handler == old(self).trap_handler,
            final(self).user_satp == old(self).user_satp,
            final(self).trap_cx_user == old(self).trap_cx_user,
            final(self).trap_cx_kernel == old(self).trap_cx_kernel,
            final(self).trap_cx_ppn_pa == old(self).trap_cx_ppn_pa,
    {
        self.x[2] = sp;
    }

    /// The context in which a user program starts at `entry` with stack pointer `sp`;
    /// `sstatus_bits` is the current value of `sstatus`.
    pub fn app_init_context(
        entry: u64,
        sp: u64,
        kernel_satp: u64,
        kernel_sp: u64,
        trap_handler: u64,
        user_satp: u64,
        trap_cx_user: u64,
        trap_cx_kernel: u64,
        trap_cx_ppn_pa: u64,
        sstatus_bits: u64,
    ) -> (r: TrapContext)
        ensures
            r.x@ == Seq::new(32, |i: int| if i == 2 { sp } else { 0u64 }),
            r.sstatus == user_sstatus(sstatus_bits),
            r.sepc == entry,
            r.kernel_satp == kernel_satp,
            r.kernel_sp == kernel_sp,
            r.trap_handler == trap_handler,
            r.user_satp == user_satp,
            r.trap_cx_user == trap_cx_user,
            r.trap_cx_kernel == trap_cx_kernel,
            r.trap_cx_ppn_pa == trap_cx_ppn_pa,
    {
        proof {
            assert(1u64 << 5u64 == 0x20u64 && 1u64 << 1u64 == 0x2u64 && 3u64 << 13u64 == 0x6000u64) by (bit_vector);
        }
        let sstatus_val = {
            let s = sstatus_with_user_spp(sstatus_bits);
            let mut val = (s | (1u64 << 5)) & !(1u64 << 1);
            val = val & !(3u64 << 13);
            val = val | (3u64 << 13);
            val
        };
        let mut cx = TrapContext {
            x: [0; 32],
            sstatus: sstatus_val,
            sepc: entry,
            kernel_satp,
            kernel_sp,
            trap_handler,
            user_satp,
            trap_cx_user,
            trap_cx_kernel,
            trap_cx_ppn_pa,
        };
        cx.set_sp(sp);
        proof {
            assert(cx.x@ =~= Seq::new(32, |i: int| if i == 2 { sp } else { 0u64 }));
        }
        cx
    }
}

/// The user `sstatus` has the previous privilege User, SPIE set, SIE clear and the
/// floating-point state Dirty, whatever `sstatus` held before.
pub proof fn law_user_sstatus(bits: u64)
    ensures
        user_sstatus(bits) & 0x100u64 == 0,
        user_sstatus(bits) & 0x20u64 == 0x20u64,
        user_sstatus(bits) & 0x2u64 == 0,
        (user_sstatus(bits) >> 13u64) & 3u64 == 3,
{
    assert((((((bits & 0x8000_0003_000d_e762u64) & !0x100u64) | 0x20u64) & !0x2u64) & !0x6000u64) | 0x6000u64
        == user_sstatus(bits));
    assert(((((((bits & 0x8000_0003_000d_e762u64) & !0x100u64) | 0x20u64) & !0x2u64) & !0x6000u64) | 0x6000u64) & 0x100u64 == 0
        && ((((((bits & 0x8000_0003_000d_e762u64) & !0x100u64) | 0x20u64) & !0x2u64) & !0x6000u64) | 0x6000u64) & 0x20u64 == 0x20u64
        && ((((((bits & 0x8000_0003_000d_e762u64) & !0x100u64) | 0x20u64) & !0x2u64) & !0x6000u64) | 0x6000u64) & 0x2u64 == 0
        && (((((((bits & 0x8000_0003_000d_e762u64) & !0x100u64) | 0x20u64) & !0x2u64) & !0x6000u64) | 0x6000u64) >> 13u64) & 3u64 == 3)
        by (bit_vector);
}

/// A wrapper for `riscv::register::scause::Scause::cause` on the value made by
/// `Scause::from_bits`: whether bit 63 (interrupt) is set, and the code in bits 62..0.
#[verifier::external_body]
pub(crate) fn scause_cause(bits: u64) -> (r: (bool, u64))
    ensures
        r.0 == (bits >> 63u64 != 0),
        r.1 == bits & 0x7fff_ffff_ffff_ffffu64,
{
    match riscv::register::scause::Scause::from_bits(bits as usize).cause() {
        riscv::register::scause::Trap::Interrupt(code) => (true, code as u64),
        riscv::register::scause::Trap::Exception(code) => (false, code as u64),
    }
}

/// The causes of a trap that the kernel tells apart.
#[derive(Clone, Copy, PartialEq, Eq, Structural, Debug)]
pub enum TrapCause {
    UserEnvCall,
    StoreFault,
    StorePageFault,
    InstructionFault,
    InstructionPageFault,
    LoadFault,
    LoadPageFault,
    IllegalInstruction,
    SupervisorTimer,
    /// Any other cause (the kernel does not handle it).
    Other,
}

/// The cause that an interrupt flag and a code stand for (the supervisor codes of RISC-V).
pub open spec fn cause_of(interrupt: bool, code: u64) -> TrapCause {
    if interrupt {
        if code == 5 {
            TrapCause::SupervisorTimer
        } else {
            TrapCause::Other
        }
    } else if code == 8 {
        TrapCause::UserEnvCall
    } else if code == 7 {
        TrapCause::StoreFault
    } else if code == 15 {
        TrapCause::StorePageFault
    } else if code == 1 {
        TrapCause::InstructionFault
    } else if code == 12 {
        TrapCause::InstructionPageFault
    } else if code == 5 {
        TrapCause::LoadFault
    } else if code == 13 {
        TrapCause::LoadPageFault
    } else if code == 2 {
        TrapCause::IllegalInstruction
    } else {
        TrapCause::Other
    }
}

/// The cause of a trap, from the value of `scause`.
pub fn trap_cause(scause_bits: u64) -> (r: TrapCause)
    ensures
        r == cause_of(scause_bits >> 63u64 != 0, scause_bits & 0x7fff_ffff_ffff_ffffu64),
{
    let (interrupt, code) = scause_cause(scause_bits);
    if interrupt {
        if code == 5 {
            TrapCause::SupervisorTimer
        } else {
            TrapCause::Other
        }
    } else if code == 8 {
        TrapCause::UserEnvCall
    } else if code == 7 {
        TrapCause::StoreFault
    } else if code == 15 {
        TrapCause::StorePageFault
    } else if code == 1 {
        TrapCause::InstructionFault
    } else if code == 12 {
        TrapCause::InstructionPageFault
    } else if code == 5 {
        TrapCause::LoadFault
    } else if code == 13 {
        TrapCause::LoadPageFault
    } else if code == 2 {
        TrapCause::IllegalInstruction
    } else {
        TrapCause::Other
    }
}

/// What the trap handler does for a cause.
#[derive(Clone, Copy, PartialEq, Eq, Structural, Debug)]
pub enum TrapAction {
    /// Run the system call the user program asked for.
    Syscall,
    /// End the running program with this exit code.
    Exit(i32),
    /// Let the next program run (the time slice is over).
    Suspend,
    /// The kernel stops: the cause is not supported.
    Unsupported,
}

/// The action for a trap cause, as `trap_action` takes it.
pub open spec fn action_of(cause: TrapCause) -> TrapAction {
    match cause {
        TrapCause::UserEnvCall => TrapAction::Syscall,
        TrapCause::StoreFault | TrapCause::StorePageFault | TrapCause::InstructionFault
        | TrapCause::InstructionPageFault | TrapCause::LoadFault | TrapCause::LoadPageFault => TrapAction::Exit(-2i32),
        TrapCause::IllegalInstruction => TrapAction::Exit(-3i32),
        TrapCause::SupervisorTimer => TrapAction::Suspend,
        TrapCause::Other => TrapAction::Unsupported,
    }
}

/// The value of `scause` for a trap: the interrupt flag in bit 63 and the code below it.
pub open spec fn scause_value(interrupt: bool, code: u64) -> u64 {
    (if interrupt { 0x8000_0000_0000_0000u64 } else { 0u64 }) | code
}

/// `trap_cause` and `trap_action` follow the RISC-V `scause` table. For an exception (bit 63
/// clear), code 1 is an instruction access fault, 2 an illegal instruction, 5 a load access
/// fault, 7 a store access fault, 8 an environment call from U-mode, 12 an instruction page
/// fault, 13 a load page fault and 15 a store page fault; for an interrupt, code 5 is the
/// supervisor timer. Every memory-access fault (codes 1, 5, 7, 12, 13, 15) ends the program
/// with -2, an illegal instruction with -3, an environment call is served as a system call,
/// the timer switches programs, and every other cause is unsupported.
pub proof fn law_scause_table(code: u64)
    requires
        code < 0x8000_0000_0000_0000,
    ensures
        ({
            let e = scause_value(false, code);
            let c = cause_of(e >> 63u64 != 0, e & 0x7fff_ffff_ffff_ffffu64);
            &&& code == 1 ==> c == TrapCause::InstructionFault
            &&& code == 2 ==> c == TrapCause::IllegalInstruction
            &&& code == 5 ==> c == TrapCause::LoadFault
            &&& code == 7 ==> c == TrapCause::StoreFault
            &&& code == 8 ==> c == TrapCause::UserEnvCall
            &&& code == 12 ==> c == TrapCause::InstructionPageFault
            &&& code == 13 ==> c == TrapCause::LoadPageFault
            &&& code == 15 ==> c == TrapCause::StorePageFault
            &&& (code == 1 || code == 5 || code == 7 || code == 12 || code == 13 || code == 15) ==> action_of(c) == TrapAction::Exit(-2i32)
            &&& code == 2 ==> action_of(c) == TrapAction::Exit(-3i32)
            &&& code == 8 ==> action_of(c) == TrapAction::Syscall
            &&& !(code == 1 || code == 2 || code == 5 || code == 7 || code == 8 || code == 12 || code == 13 || code == 15)
                ==> action_of(c) == TrapAction::Unsupported
        }),
        ({
            let i = scause_value(true, code);
            let c = cause_of(i >> 63u64 != 0, i & 0x7fff_ffff_ffff_ffffu64);
            &&& code == 5 ==> c == TrapCause::SupervisorTimer && action_of(c) == TrapAction::Suspend
            &&& code != 5 ==> action_of(c) == TrapAction::Unsupported
        }),
{
    let e = scause_value(false, code);
    let i = scause_value(true, code);
    assert(e >> 63u64 == 0 && e & 0x7fff_ffff_ffff_ffffu64 == code) by (bit_vector)
        requires
            e == 0u64 | code,
            code < 0x8000_0000_0000_0000u64,
    ;
    assert(i >> 63u64 == 1 && i & 0x7fff_ffff_ffff_ffffu64 == code) by (bit_vector)
        requires
            i == 0x8000_0000_0000_0000u64 | code,
            code < 0x8000_0000_0000_0000u64,
    ;
}

/// The action for a trap cause: system calls are served, memory faults end the program
/// with -2, illegal instructions with -3, timer interrupts switch programs.
pub fn trap_action(cause: TrapCause) -> (r: TrapAction)
    ensures
        r == action_of(cause),
        r == match cause {
            TrapCause::UserEnvCall => TrapAction::Syscall,
            TrapCause::StoreFault | TrapCause::StorePageFault | TrapCause::InstructionFault
            | TrapCause::InstructionPageFault | TrapCause::LoadFault | TrapCause::LoadPageFault => TrapAction::Exit(-2i32),
            TrapCause::IllegalInstruction => TrapAction::Exit(-3i32),
            TrapCause::SupervisorTimer => TrapAction::Suspend,
            TrapCause::Other => TrapAction::Unsupported,
        },
{
    match cause {
        TrapCause::UserEnvCall => TrapAction::Syscall,
        TrapCause::StoreFault | TrapCause::StorePageFault | TrapCause::InstructionFault
        | TrapCause::InstructionPageFault | TrapCause::LoadFault | TrapCause::LoadPageFault => TrapAction::Exit(-2i32),
        TrapCause::IllegalInstruction => TrapAction::Exit(-3i32),
        TrapCause::SupervisorTimer => TrapAction::Suspend,
        TrapCause::Other => TrapAction::Unsupported,
    }
}

impl TrapContext {
    /// Steps past the `ecall` and gives the system call number (x17) and its three
    /// arguments (x10..x12).
    pub fn begin_syscall(&mut self) -> (r: (u64, [u64; 3]))
        requires
            old(self).sepc + 4 <= u64::MAX,
        ensures
            *final(self) == (TrapContext { sepc: (old(self).sepc + 4) as u64, ..*old(self) }),
            r.0 == old(self).x@[17],
            r.1@ == seq![old(self).x@[10], old(self).x@[11], old(self).x@[12]],
    {
        self.sepc = self.sepc + 4;
        let args = [self.x[10], self.x[11], self.x[12]];
        proof {
            assert(args@ =~= seq![self.x@[10], self.x@[11], self.x@[12]]);
        }
        (self.x[17], args)
    }

    /// Puts the result of a system call in x10.
    pub fn end_syscall(&mut self, result: i64)
        ensures
            final(self).x@ == old(self).x@.update(10, result as u64),
            final(self).sstatus == old(self).sstatus,
            final(self).sepc == old(self).sepc,
            final(self).kernel_satp == old(self).kernel_satp,
            final(self).kernel_sp == old(self).kernel_sp,
            final(self).trap_handler == old(self).trap_handler,
            final(self).user_satp == old(self).user_satp,
            final(self).trap_cx_user == old(self).trap_cx_user,
            final(self).trap_cx_kernel == old(self).trap_cx_kernel,
            final(self).trap_cx_ppn_pa == old(self).trap_cx_ppn_pa,
    {
        self.x[10] = result as u64;
    }

    /// Sets the floating-point state field of `sstatus` (bits 14..13) to Dirty before the
    /// return to user mode.
    pub fn set_fs_dirty(&mut self)
        ensures
            *final(self) == (TrapContext { sstatus: (old(self).sstatus & !0x6000u64) | 0x6000u64, ..*old(self) }),
    {
        proof {
            assert(3u64 << 13u64 == 0x6000u64) by (bit_vector);
        }
        self.sstatus = self.sstatus & !(3u64 << 13);
        self.sstatus = self.sstatus | (3u64 << 13);
    }
}

} // verus!
