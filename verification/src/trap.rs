//! Traps: the context that is saved when a task enters the kernel, why the
//! kernel was entered, and what the kernel does about it.

pub mod context;

use vstd::prelude::*;

verus! {

/// An exception that a task can cause.
#[derive(Copy, Clone, Debug, PartialEq, Eq, Structural)]
pub enum Exception {
    /// An instruction was fetched from a misaligned address.
    InstructionMisaligned,
    /// An instruction could not be fetched.
    InstructionFault,
    /// An instruction is not one that the processor knows.
    IllegalInstruction,
    /// A breakpoint was reached.
    Breakpoint,
    /// A load was from a misaligned address.
    LoadMisaligned,
    /// A load failed.
    LoadFault,
    /// A store was to a misaligned address.
    StoreMisaligned,
    /// A store failed.
    StoreFault,
    /// A call to the kernel from user mode.
    UserEnvCall,
    /// A call to the firmware from supervisor mode.
    SupervisorEnvCall,
    /// An instruction was fetched from a page that is not mapped for that.
    InstructionPageFault,
    /// A load was from a page that is not mapped for that.
    LoadPageFault,
    /// A store was to a page that is not mapped for that.
    StorePageFault,
    /// An exception with a code that stands for none of the above.
    Unknown,
}

/// An interrupt that can reach the kernel.
#[derive(Copy, Clone, Debug, PartialEq, Eq, Structural)]
pub enum Interrupt {
    /// A software interrupt.
    SupervisorSoft,
    /// The timer.
    SupervisorTimer,
    /// An external interrupt.
    SupervisorExternal,
    /// An interrupt with a code that stands for none of the above.
    Unknown,
}

/// Why the kernel was entered.
#[derive(Copy, Clone, Debug, PartialEq, Eq, Structural)]
pub enum Trap {
    /// By an interrupt.
    Interrupt(Interrupt),
    /// By an exception.
    Exception(Exception),
}

/// The exit code of a task that was ended because of a bad memory access.
pub const EXIT_BAD_ACCESS: i32 = -2;

/// The exit code of a task that was ended because of an illegal
/// instruction.
pub const EXIT_ILLEGAL_INSTRUCTION: i32 = -3;

/// The highest bit of the cause register, which is set for interrupts.
pub const CAUSE_INTERRUPT_BIT: u64 = 0x8000_0000_0000_0000;

/// Splits the cause register `bits` into whether the cause is an interrupt,
/// and its code, with `Scause::from_bits` and `Scause::cause` of the `riscv`
/// crate.
///
/// Trusted: the cause is an interrupt if the highest bit is set, and the
/// code is what the other bits hold.
#[verifier::external_body]
fn cause_parts(bits: u64) -> (r: (bool, u64))
    ensures
        r.0 == (bits >= CAUSE_INTERRUPT_BIT),
        r.1 == bits % CAUSE_INTERRUPT_BIT,
{
    match riscv::register::scause::Scause::from_bits(bits as usize).cause() {
        riscv::interrupt::Trap::Interrupt(code) => (true, code as u64),
        riscv::interrupt::Trap::Exception(code) => (false, code as u64),
    }
}

/// The exception with the code `code`.
pub open spec fn exception_of(code: u64) -> Exception {
    if code == 0 {
        Exception::InstructionMisaligned
    } else if code == 1 {
        Exception::InstructionFault
    } else if code == 2 {
        Exception::IllegalInstruction
    } else if code == 3 {
        Exception::Breakpoint
    } else if code == 4 {
        Exception::LoadMisaligned
    } else if code == 5 {
        Exception::LoadFault
    } else if code == 6 {
        Exception::StoreMisaligned
    } else if code == 7 {
        Exception::StoreFault
    } else if code == 8 {
        Exception::UserEnvCall
    } else if code == 9 {
        Exception::SupervisorEnvCall
    } else if code == 12 {
        Exception::InstructionPageFault
    } else if code == 13 {
        Exception::LoadPageFault
    } else if code == 15 {
        Exception::StorePageFault
    } else {
        Exception::Unknown
    }
}

/// The interrupt with the code `code`.
pub open spec fn interrupt_of(code: u64) -> Interrupt {
    if code == 1 {
        Interrupt::SupervisorSoft
    } else if code == 5 {
        Interrupt::SupervisorTimer
    } else if code == 9 {
        Interrupt::SupervisorExternal
    } else {
        Interrupt::Unknown
    }
}

/// What the cause register `scause` says about why the kernel was entered.
pub open spec fn trap_of(scause: u64) -> Trap {
    if scause >= CAUSE_INTERRUPT_BIT {
        Trap::Interrupt(interrupt_of((scause % CAUSE_INTERRUPT_BIT) as u64))
    } else {
        Trap::Exception(exception_of(scause))
    }
}

/// The exception with the code `code`.
pub fn exception_from_code(code: u64) -> (e: Exception)
    ensures
        e == exception_of(code),
{
    match code {
        0 => Exception::InstructionMisaligned,
        1 => Exception::InstructionFault,
        2 => Exception::IllegalInstruction,
        3 => Exception::Breakpoint,
        4 => Exception::LoadMisaligned,
        5 => Exception::LoadFault,
        6 => Exception::StoreMisaligned,
        7 => Exception::StoreFault,
        8 => Exception::UserEnvCall,
        9 => Exception::SupervisorEnvCall,
        12 => Exception::InstructionPageFault,
        13 => Exception::LoadPageFault,
        15 => Exception::StorePageFault,
        _ => Exception::Unknown,
    }
}

/// The interrupt with the code `code`.
pub fn interrupt_from_code(code: u64) -> (i: Interrupt)
    ensures
        i == interrupt_of(code),
{
    match code {
        1 => Interrupt::SupervisorSoft,
        5 => Interrupt::SupervisorTimer,
        9 => Interrupt::SupervisorExternal,
        _ => Interrupt::Unknown,
    }
}

/// Reads off the cause register why the kernel was entered.
pub fn classify(scause: u64) -> (t: Trap)
    ensures
        t == trap_of(scause),
{
    let (interrupt, code) = cause_parts(scause);
    if interrupt {
        Trap::Interrupt(interrupt_from_code(code))
    } else {
        Trap::Exception(exception_from_code(code))
    }
}

/// Whether the trap is a fault of the running task in reaching memory: a
/// failed store, instruction fetch or load, by access or by page.
pub open spec fn is_access_fault(t: Trap) -> bool {
    t == Trap::Exception(Exception::StoreFault) || t == Trap::Exception(Exception::StorePageFault)
        || t == Trap::Exception(Exception::InstructionFault) || t == Trap::Exception(
        Exception::InstructionPageFault,
    ) || t == Trap::Exception(Exception::LoadFault) || t == Trap::Exception(
        Exception::LoadPageFault,
    )
}

/// Whether the kernel handles a trap of this cause from a task: a system
/// call, a fault in reaching memory, an illegal instruction or a timer
/// interrupt.
pub open spec fn handled(t: Trap) -> bool {
    t == Trap::Exception(Exception::UserEnvCall) || is_access_fault(t) || t == Trap::Exception(
        Exception::IllegalInstruction,
    ) || t == Trap::Interrupt(Interrupt::SupervisorTimer)
}

/// Whether the kernel handles a trap of the cause `t` from a task.
pub fn is_handled(t: Trap) -> (r: bool)
    ensures
        r == handled(t),
{
    match t {
        Trap::Exception(Exception::UserEnvCall)
        | Trap::Exception(Exception::StoreFault)
        | Trap::Exception(Exception::StorePageFault)
        | Trap::Exception(Exception::InstructionFault)
        | Trap::Exception(Exception::InstructionPageFault)
        | Trap::Exception(Exception::LoadFault)
        | Trap::Exception(Exception::LoadPageFault)
        | Trap::Exception(Exception::IllegalInstruction)
        | Trap::Interrupt(Interrupt::SupervisorTimer) => true,
        _ => false,
    }
}

/// What the values that the kernel hands to the trampoline to return to user
/// mode are: the address to which the trap vector is set, the address of
/// the trap context in the task's address space, the word that names the
/// task's page table, and the address of the code that restores the task's
/// registers, which lies in the trampoline page as far from its start as the
/// restoring code lies from the saving code.
#[derive(Copy, Clone, Debug, PartialEq, Eq, Structural)]
pub struct ReturnToUser {
    /// The address of the trap vector for user mode.
    pub trap_vector: u64,
    /// The address of the trap context in the address space of the task.
    pub trap_cx_ptr: u64,
    /// The word that names the page table of the task.
    pub user_satp: u64,
    /// The address of the code that restores the registers of the task.
    pub restore_va: u64,
}

/// Puts together what the kernel hands to the trampoline to return to the
/// task whose page table the word `user_satp` names. `alltraps` and
/// `restore` are the addresses of the saving and the restoring code in the
/// kernel image.
pub fn trap_return(user_satp: u64, alltraps: u64, restore: u64) -> (r: ReturnToUser)
    requires
        alltraps <= restore,
        restore - alltraps < 4096,
    ensures
        r.trap_vector == crate::config::TRAMPOLINE,
        r.trap_cx_ptr == crate::config::TRAP_CONTEXT,
        r.user_satp == user_satp,
        r.restore_va == restore - alltraps + crate::config::TRAMPOLINE,
{
    let restore_va = restore - alltraps + crate::config::TRAMPOLINE;
    ReturnToUser {
        trap_vector: crate::config::TRAMPOLINE,
        trap_cx_ptr: crate::config::TRAP_CONTEXT,
        user_satp,
        restore_va,
    }
}

/// The number of the system call that writes to a file.
pub const SYSCALL_WRITE: u64 = 64;

/// The number of the system call that ends the task.
pub const SYSCALL_EXIT: u64 = 93;

/// The number of the system call that gives up the processor.
pub const SYSCALL_YIELD: u64 = 124;

/// The number of the system call that starts a copy of the task.
pub const SYSCALL_FORK: u64 = 220;

/// The number of the system call that replaces the program of the task.
pub const SYSCALL_EXEC: u64 = 221;

/// The number of the system call that waits for a task to end.
pub const SYSCALL_WAITPID: u64 = 260;

/// The file descriptor of the console for output.
pub const FD_STDOUT: u64 = 1;

/// The result of a system call that failed.
pub const FAILED: u64 = 0xffff_ffff_ffff_ffff;

/// The result of waiting for a task that has not ended.
pub const STILL_RUNNING: u64 = 0xffff_ffff_ffff_fffe;

/// The timer ticks between two timer interrupts: a hundredth of a second.
pub const TICKS_PER_SLICE: u64 = 125_000;

/// What the kernel did about a trap, and what is left to do for the code
/// around it.
#[derive(Debug)]
pub enum TrapOutcome {
    /// The task goes on after its system call.
    Resume,
    /// The task wrote these bytes to the console, and goes on.
    Output(Vec<u8>),
    /// The task gave up the processor.
    Yielded(usize),
    /// The task ended with this code.
    Exited(usize, i32),
    /// The task was ended because of a fault.
    Killed {
        /// The handle of the task.
        task: usize,
        /// The code with which the task was ended.
        code: i32,
        /// The fault.
        cause: Trap,
        /// The address that the fault is about.
        bad_addr: u64,
        /// The address of the instruction that caused the fault.
        bad_instruction: u64,
    },
    /// The timer interrupted the task, which gave way. The timer is to be
    /// set to the deadline.
    Preempted {
        /// The handle of the task.
        task: usize,
        /// The time of the next timer interrupt.
        deadline: u64,
    },
    /// The task made a system call that this kernel leaves to the code
    /// around it; its result goes to the task with
    /// [`Kernel::finish_syscall`].
    Delegated {
        /// The number of the system call.
        id: u64,
        /// The arguments of the system call.
        args: [u64; 3],
    },
}

/// Byte `k` of the number `code`, the lowest first.
pub open spec fn code_byte(code: i32, k: int) -> u8 {
    if k == 0 {
        #[verifier::truncate]
        (code as u8)
    } else if k == 1 {
        #[verifier::truncate]
        ((code >> 8) as u8)
    } else if k == 2 {
        #[verifier::truncate]
        ((code >> 16) as u8)
    } else {
        #[verifier::truncate]
        ((code >> 24) as u8)
    }
}

} // verus!
