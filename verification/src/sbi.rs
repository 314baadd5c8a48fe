//! Calls to the platform firmware: which service is asked for, and with
//! which arguments. Making the call is left to the code around the kernel.

use vstd::prelude::*;

verus! {

/// The service that sets the timer.
pub const SBI_SET_TIMER: u64 = 0;

/// The service that writes a character to the console.
pub const SBI_CONSOLE_PUTCHAR: u64 = 1;

/// The service that reads a character from the console.
pub const SBI_CONSOLE_GETCHAR: u64 = 2;

/// The service that halts the machine.
pub const SBI_SHUTDOWN: u64 = 8;

/// A call to the firmware: the number of the service, which goes to
/// register 17, and the three arguments, which go to registers 10 to 12.
#[derive(Copy, Clone, Debug, PartialEq, Eq, Structural)]
pub struct SbiCall {
    /// The number of the service.
    pub which: u64,
    /// The first argument.
    pub arg0: u64,
    /// The second argument.
    pub arg1: u64,
    /// The third argument.
    pub arg2: u64,
}

/// The call that writes the character `c` to the console.
pub fn console_putchar(c: u64) -> (call: SbiCall)
    ensures
        call == (SbiCall { which: SBI_CONSOLE_PUTCHAR, arg0: c, arg1: 0, arg2: 0 }),
{
    SbiCall { which: SBI_CONSOLE_PUTCHAR, arg0: c, arg1: 0, arg2: 0 }
}

/// The call that sets the timer to go off at the time `timer`.
pub fn set_timer(timer: u64) -> (call: SbiCall)
    ensures
        call == (SbiCall { which: SBI_SET_TIMER, arg0: timer, arg1: 0, arg2: 0 }),
{
    SbiCall { which: SBI_SET_TIMER, arg0: timer, arg1: 0, arg2: 0 }
}

/// The call that halts the machine.
pub fn shutdown() -> (call: SbiCall)
    ensures
        call == (SbiCall { which: SBI_SHUTDOWN, arg0: 0, arg1: 0, arg2: 0 }),
{
    SbiCall { which: SBI_SHUTDOWN, arg0: 0, arg1: 0, arg2: 0 }
}

} // verus!
