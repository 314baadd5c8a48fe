//! The registers that a context switch saves and restores.

use vstd::prelude::*;

verus! {

/// The registers of a flow of control in the kernel that a context switch
/// saves: the return address, the stack pointer and the twelve saved
/// registers.
#[derive(Copy, Clone, Debug)]
pub struct TaskContext {
    ra: u64,
    sp: u64,
    s: [u64; 12],
}

impl TaskContext {
    /// The address at which the flow of control resumes.
    pub closed spec fn spec_ra(&self) -> u64 {
        self.ra
    }

    /// The stack pointer with which the flow of control resumes.
    pub closed spec fn spec_sp(&self) -> u64 {
        self.sp
    }

    /// The saved registers.
    pub closed spec fn saved(&self) -> Seq<u64> {
        self.s@
    }

    /// The address at which the flow of control resumes.
    #[verifier::when_used_as_spec(spec_ra)]
    pub fn ra(&self) -> (r: u64)
        ensures
            r == self.spec_ra(),
    {
        self.ra
    }

    /// The stack pointer with which the flow of control resumes.
    #[verifier::when_used_as_spec(spec_sp)]
    pub fn sp(&self) -> (r: u64)
        ensures
            r == self.spec_sp(),
    {
        self.sp
    }

    /// A context of all zeros.
    pub fn zero_init() -> (cx: TaskContext)
        ensures
            cx.ra() == 0,
            cx.sp() == 0,
            cx.saved() == Seq::new(12, |i: int| 0u64),
    {
        let cx = TaskContext { ra: 0, sp: 0, s: [0; 12] };
        assert(cx.saved() =~= Seq::new(12, |i: int| 0u64));
        cx
    }

    /// The context of a task that has not run yet: it resumes at
    /// `trap_return`, the address of the routine that returns to user mode,
    /// on the kernel stack that ends at `kstack_ptr`.
    pub fn goto_trap_return(kstack_ptr: u64, trap_return: u64) -> (cx: TaskContext)
        ensures
            cx.ra() == trap_return,
            cx.sp() == kstack_ptr,
            cx.saved() == Seq::new(12, |i: int| 0u64),
    {
        let cx = TaskContext { ra: trap_return, sp: kstack_ptr, s: [0; 12] };
        assert(cx.saved() =~= Seq::new(12, |i: int| 0u64));
        cx
    }
}

} // verus!
