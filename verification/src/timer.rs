//! The timer: when the next timer interrupt is due, and the time in
//! microseconds.

use crate::config::CLOCK_FREQ;
use crate::sbi::{set_timer, SbiCall, SBI_SET_TIMER};
use vstd::prelude::*;

verus! {

/// Timer interrupts per second.
pub const TICKS_PER_SEC: u64 = 100;

/// Microseconds per second.
pub const MICRO_PER_SEC: u64 = 1_000_000;

/// The call that sets the timer to go off one time slice after the time
/// `now`, which is what the time counter reads.
pub fn set_next_trigger(now: u64) -> (call: SbiCall)
    ensures
        call == (SbiCall {
            which: SBI_SET_TIMER,
            arg0: ((now + CLOCK_FREQ / TICKS_PER_SEC) % 0x1_0000_0000_0000_0000) as u64,
            arg1: 0,
            arg2: 0,
        }),
{
    set_timer(now.wrapping_add(CLOCK_FREQ / TICKS_PER_SEC))
}

/// The time in microseconds when the time counter reads `time`.
pub fn get_time_us(time: u64) -> (us: u64)
    ensures
        us == time / (CLOCK_FREQ / MICRO_PER_SEC),
{
    time / (CLOCK_FREQ / MICRO_PER_SEC)
}

} // verus!
