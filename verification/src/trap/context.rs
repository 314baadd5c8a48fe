//! The registers of a task that are saved on a trap.

use crate::address::PhysPageNum;
use crate::memory::PhysMemory;
use vstd::prelude::*;

verus! {

/// The bit of the status register that says from which mode the trap came:
/// set for supervisor mode, clear for user mode.
pub const SSTATUS_SPP: u64 = 0x100;

/// The bits of the status register that the `riscv` crate keeps.
pub const SSTATUS_MASK: u64 = 0x8000_0003_000d_e762;

/// The status register `bits` with the previous mode set to user mode, as
/// the `riscv` crate computes it: the bits that the crate keeps, without the
/// bit of the previous mode.
pub open spec fn user_status(bits: u64) -> u64 {
    (bits & SSTATUS_MASK) & !SSTATUS_SPP
}

/// Sets the previous privilege mode in the status register `bits` to user
/// mode, with `Sstatus::from_bits`, `Sstatus::set_spp` and `Sstatus::bits`
/// of the `riscv` crate.
///
/// Trusted: the result holds the bits of the register that the crate keeps,
/// with the bit of the previous mode cleared.
#[verifier::external_body]
fn with_user_spp(bits: u64) -> (r: u64)
    ensures
        r == user_status(bits),
{
    let mut sstatus = riscv::register::sstatus::Sstatus::from_bits(bits as usize);
    sstatus.set_spp(riscv::register::sstatus::SPP::User);
    sstatus.bits() as u64
}

/// The registers of a task that are saved when it traps into the kernel,
/// and what the trap entry needs to get into the kernel.
#[derive(Copy, Clone, Debug)]
pub struct TrapContext {
    /// The 32 general registers.
    pub x: [u64; 32],
    /// The status register.
    pub sstatus: u64,
    /// The address at which the task resumes.
    pub sepc: u64,
    /// The word that names the kernel's page table.
    pub kernel_satp: u64,
    /// The top of the task's kernel stack.
    pub kernel_sp: u64,
    /// The address of the trap handler.
    pub trap_handler: u64,
}

impl TrapContext {
    /// Sets the stack pointer, which is register 2.
    #[verifier::spinoff_prover]
    pub fn set_sp(&mut self, sp: u64)
        ensures
            final(self).x@ == old(self).x@.update(2, sp),
            final(self).sstatus == old(self).sstatus,
            final(self).sepc == old(self).sepc,
            final(self).kernel_satp == old(self).kernel_satp,
            final(self).kernel_sp == old(self).kernel_sp,
            final(self).trap_handler == old(self).trap_handler,
    {
        self.x[2] = sp;
    }

    /// The context of a task that has not run yet: it starts at `entry` in
    /// user mode with the stack pointer `sp` and all other registers zero.
    /// `sstatus` is the status register as it is now.
    #[verifier::spinoff_prover]
    pub fn app_init_context(
        entry: u64,
        sp: u64,
        kernel_satp: u64,
        kernel_sp: u64,
        trap_handler: u64,
        sstatus: u64,
    ) -> (cx: TrapContext)
        ensures
            cx.x@ == Seq::new(32, |i: int| if i == 2 { sp } else { 0u64 }),
            cx.sstatus == user_status(sstatus),
            cx.sepc == entry,
            cx.kernel_satp == kernel_satp,
            cx.kernel_sp == kernel_sp,
            cx.trap_handler == trap_handler,
    {
        let mut cx = TrapContext {
            x: [0; 32],
            sstatus: with_user_spp(sstatus),
            sepc: entry,
            kernel_satp,
            kernel_sp,
            trap_handler,
        };
        cx.set_sp(sp);
        assert(cx.x@ =~= Seq::new(32, |i: int| if i == 2 { sp } else { 0u64 }));
        cx
    }
}

impl TrapContext {
    /// Word `i` of the context as it lies in memory: the 32 registers, then
    /// the status register, the resume address, the kernel's page-table
    /// word, the kernel stack top and the address of the trap handler.
    pub open spec fn word(&self, i: int) -> u64 {
        if 0 <= i < 32 {
            self.x@[i]
        } else if i == 32 {
            self.sstatus
        } else if i == 33 {
            self.sepc
        } else if i == 34 {
            self.kernel_satp
        } else if i == 35 {
            self.kernel_sp
        } else {
            self.trap_handler
        }
    }

    /// The context lies at the start of frame `ppn`.
    pub open spec fn stored_at(&self, mem: &PhysMemory, ppn: PhysPageNum) -> bool {
        forall|i: int| 0 <= i < 37 ==> #[trigger] mem.word(ppn, i) == self.word(i)
    }

    /// Writes the context to the start of frame `ppn`. No other word of
    /// memory changes.
    #[verifier::spinoff_prover]
    pub fn store(&self, ppn: PhysPageNum, mem: &mut PhysMemory)
        requires
            old(mem).wf(),
            old(mem).contains(ppn),
        ensures
            final(mem).wf(),
            final(mem).same_range(old(mem)),
            self.stored_at(final(mem), ppn),
            forall|p: PhysPageNum, i: int|
                0 <= i < 512 && old(mem).contains(p) && (p != ppn || i >= 37) ==> #[trigger] final(mem).word(p, i) == old(mem).word(p, i),
    {
        let mut i: usize = 0;
        while i < 32
            invariant
                i <= 32,
                mem.wf(),
                mem.same_range(old(mem)),
                mem.contains(ppn),
                forall|j: int| 0 <= j < i ==> #[trigger] mem.word(ppn, j) == self.word(j),
                forall|p: PhysPageNum, j: int|
                    0 <= j < 512 && old(mem).contains(p) && (p != ppn || j >= 37) ==> #[trigger] mem.word(
                        p,
                        j,
                    ) == old(mem).word(p, j),
            decreases 32 - i,
        {
            mem.write_word(ppn, i, self.x[i]);
            i += 1;
        }
        mem.write_word(ppn, 32, self.sstatus);
        mem.write_word(ppn, 33, self.sepc);
        mem.write_word(ppn, 34, self.kernel_satp);
        mem.write_word(ppn, 35, self.kernel_sp);
        mem.write_word(ppn, 36, self.trap_handler);
    }

    /// Reads the context that lies at the start of frame `ppn`.
    #[verifier::spinoff_prover]
    pub fn load(ppn: PhysPageNum, mem: &PhysMemory) -> (cx: TrapContext)
        requires
            mem.wf(),
            mem.contains(ppn),
        ensures
            cx.stored_at(mem, ppn),
    {
        let mut x: [u64; 32] = [0; 32];
        let mut i: usize = 0;
        while i < 32
            invariant
                i <= 32,
                mem.wf(),
                mem.contains(ppn),
                forall|j: int| 0 <= j < i ==> x@[j] == #[trigger] mem.word(ppn, j),
            decreases 32 - i,
        {
            x[i] = mem.read_word(ppn, i);
            i += 1;
        }
        TrapContext {
            x,
            sstatus: mem.read_word(ppn, 32),
            sepc: mem.read_word(ppn, 33),
            kernel_satp: mem.read_word(ppn, 34),
            kernel_sp: mem.read_word(ppn, 35),
            trap_handler: mem.read_word(ppn, 36),
        }
    }
}


} // verus!
