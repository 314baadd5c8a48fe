//! Constants of the memory layout and the position of the kernel stacks.

use vstd::prelude::*;

verus! {

/// Size of a task's user stack in bytes.
pub const USER_STACK_SIZE: u64 = 0x2000;

/// Size of a task's kernel stack in bytes.
pub const KERNEL_STACK_SIZE: u64 = 0x2000;

/// Size of the kernel heap in bytes.
pub const KERNEL_HEAP_SIZE: u64 = 0x30_0000;

/// First physical address past the end of usable memory.
pub const MEMORY_END: u64 = 0x8080_0000;

/// Size of a page in bytes.
pub const PAGE_SIZE: u64 = 0x1000;

/// Number of address bits that select a byte within a page.
pub const PAGE_SIZE_BITS: u64 = 0xc;

/// Start of the trampoline page, the highest page of every address space.
pub const TRAMPOLINE: u64 = 0xffff_ffff_ffff_f000;

/// Start of the trap-context page, the page just below the trampoline.
pub const TRAP_CONTEXT: u64 = 0xffff_ffff_ffff_e000;

/// Ticks of the platform timer per second.
pub const CLOCK_FREQ: u64 = 12_500_000;

/// The largest admission index whose kernel stack still lies above address 0.
pub const MAX_APP_ID: u64 = 0x5_5555_5555_5554;

/// Kernel-stack top of the task admitted as number `app_id`.
pub open spec fn kernel_stack_top(app_id: int) -> int {
    TRAMPOLINE as int - app_id * (KERNEL_STACK_SIZE as int + PAGE_SIZE as int)
}

/// Returns `(bottom, top)` of the kernel stack of the task admitted as
/// number `app_id`. Stacks are laid out downwards from the trampoline, each
/// followed by one guard page.
pub fn kernel_stack_position(app_id: u64) -> (r: (u64, u64))
    requires
        app_id <= MAX_APP_ID,
    ensures
        r.1 as int == kernel_stack_top(app_id as int),
        r.0 as int == r.1 as int - KERNEL_STACK_SIZE as int,
        r.0 < r.1 <= TRAMPOLINE,
{
    let stride: u64 = KERNEL_STACK_SIZE + PAGE_SIZE;
    assert(stride == 0x3000);
    assert(app_id * 0x3000 <= 0xffff_ffff_ffff_f000 - 0x2000);
    let top: u64 = TRAMPOLINE - app_id * stride;
    let bottom: u64 = top - KERNEL_STACK_SIZE;
    (bottom, top)
}

} // verus!
