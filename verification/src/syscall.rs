//! System calls as a task makes them: the number of the call and its
//! arguments, as they go into the registers.

use vstd::prelude::*;

verus! {

/// A system call: its number, which goes to register 17, and its three
/// arguments, which go to registers 10 to 12.
#[derive(Copy, Clone, Debug, PartialEq, Eq, Structural)]
pub struct SyscallRequest {
    /// The number of the call.
    pub id: u64,
    /// The first argument.
    pub arg0: u64,
    /// The second argument.
    pub arg1: u64,
    /// The third argument.
    pub arg2: u64,
}

/// The number `xstate` as a register holds it: extended to 64 bits with its
/// sign.
pub open spec fn register_value(xstate: i32) -> u64 {
    if xstate >= 0 {
        xstate as u64
    } else {
        (xstate + 0x1_0000_0000_0000_0000) as u64
    }
}

/// The call that writes the `len` bytes at the address `buffer` to the file
/// `fd`.
pub fn sys_write(fd: u64, buffer: u64, len: u64) -> (call: SyscallRequest)
    ensures
        call == (SyscallRequest { id: crate::trap::SYSCALL_WRITE, arg0: fd, arg1: buffer, arg2: len }),
{
    SyscallRequest { id: crate::trap::SYSCALL_WRITE, arg0: fd, arg1: buffer, arg2: len }
}

/// The call that ends the task with the code `xstate`.
pub fn sys_exit(xstate: i32) -> (call: SyscallRequest)
    ensures
        call == (SyscallRequest {
            id: crate::trap::SYSCALL_EXIT,
            arg0: register_value(xstate),
            arg1: 0,
            arg2: 0,
        }),
{
    let value: u64 = if xstate >= 0 {
        xstate as u64
    } else {
        u64::MAX - ((-(xstate as i64)) as u64 - 1)
    };
    SyscallRequest { id: crate::trap::SYSCALL_EXIT, arg0: value, arg1: 0, arg2: 0 }
}

} // verus!
