//! The state of the kernel as a whole: physical memory, the frame allocator,
//! the kernel's address space, the tasks, the ready queue and the processor.
//!
//! Tasks live in a table and are known by their handle, the index in the
//! table, which is also their admission index. The ready queue and the
//! processor hold handles.

use crate::address::{PhysPageNum, VirtPageNum};
use crate::frame_allocator::{init_frame_allocator, others_untouched, StackFrameAllocator};
use crate::image::image_of;
use crate::memory::PhysMemory;
use crate::memory_set::{
    lemma_space_survives, KernelLayout, LoadError, MemorySet,
};
use crate::page_table::MapError;
use crate::task::manager::TaskManager;
use crate::task::processor::Processor;
use crate::memory_set::{lemma_frame_of, lemma_space_walkable, MapPermission};
use crate::page_table::{bytes_of, chunks_of, read_chunks, translated_byte_buffer};
use crate::task::task::{task_created, KernelEnv, TaskControlBlock, TaskStatus, MAX_TASK_ID};
use crate::trap::context::TrapContext;
use crate::trap::{
    classify, code_byte, handled, is_access_fault, is_handled, trap_of, Exception, Interrupt, Trap,
    TrapOutcome,
    EXIT_BAD_ACCESS, EXIT_ILLEGAL_INSTRUCTION, FAILED, FD_STDOUT, STILL_RUNNING, SYSCALL_EXIT,
    SYSCALL_WAITPID, SYSCALL_WRITE, SYSCALL_YIELD, TICKS_PER_SLICE,
};
use vstd::prelude::*;

verus! {

/// The kernel: everything that it owns and keeps track of.
pub struct Kernel {
    memory: PhysMemory,
    allocator: StackFrameAllocator,
    kernel_space: MemorySet,
    tasks: Vec<TaskControlBlock>,
    manager: TaskManager,
    processor: Processor,
    env: KernelEnv,
}

impl Kernel {
    /// The tasks, by their handles.
    pub closed spec fn task_list(&self) -> Seq<TaskControlBlock> {
        self.tasks@
    }

    /// The handles of the tasks that are ready to run, the one that runs
    /// next first.
    pub closed spec fn ready(&self) -> Seq<usize> {
        self.manager@
    }

    /// The handle of the task that runs, if one does.
    pub closed spec fn running(&self) -> Option<usize> {
        self.processor.running()
    }

    /// Physical memory.
    pub closed spec fn mem(&self) -> PhysMemory {
        self.memory
    }

    /// The frame allocator.
    pub closed spec fn frames(&self) -> StackFrameAllocator {
        self.allocator
    }

    /// The kernel's address space.
    pub closed spec fn space(&self) -> MemorySet {
        self.kernel_space
    }

    /// What the kernel was told about the machine and about itself.
    pub closed spec fn environment(&self) -> KernelEnv {
        self.env
    }

    /// What a task is doing.
    pub open spec fn status(&self, i: int) -> TaskStatus {
        self.task_list()[i].task_status
    }

    /// The tasks and the kernel fit into memory together: the kernel's
    /// address space is whole, every task is whole or gone, every task is
    /// known by its admission index, and no frame belongs to two of them.
    #[verifier::opaque]
    pub open spec fn memory_ok(&self) -> bool {
        let mem = &self.mem();
        let frames = &self.frames();
        &&& self.space().inv(mem, frames)
        &&& self.task_list().len() <= MAX_TASK_ID + 1
        &&& (self.environment().strampoline % crate::address::PA_LIMIT) % 4096 == 0
        &&& forall|i: int|
            0 <= i < self.task_list().len() ==> ((#[trigger] self.task_list()[i]).inv(mem, frames)
                || self.task_list()[i].gone()) && self.task_list()[i].pid == i && mem.contains(
                self.task_list()[i].trap_cx_ppn,
            )
        &&& forall|i: int, p: PhysPageNum|
            0 <= i < self.task_list().len() && #[trigger] self.task_list()[i].memory_set.owns(p)
                ==> !self.space().owns(p)
        &&& forall|i: int, j: int, p: PhysPageNum|
            0 <= i < self.task_list().len() && 0 <= j < self.task_list().len() && i != j
                && #[trigger] self.task_list()[i].memory_set.owns(p)
                ==> !#[trigger] self.task_list()[j].memory_set.owns(p)
    }

    /// The tasks are where their state says: the ready queue holds the
    /// tasks that are ready, each once; the processor holds the task that
    /// runs; every other task has exited; and only a task that has exited
    /// is gone.
    pub open spec fn schedule_ok(&self) -> bool {
        &&& self.ready().no_duplicates()
        &&& forall|k: int|
            0 <= k < self.ready().len() ==> (#[trigger] self.ready()[k]) < self.task_list().len()
                && self.status(self.ready()[k] as int) == TaskStatus::Ready
        &&& forall|i: int|
            0 <= i < self.task_list().len() && #[trigger] self.status(i) == TaskStatus::Ready
                ==> self.ready().contains(i as usize)
        &&& self.running() matches Some(c) ==> c < self.task_list().len() && self.status(c as int)
            == TaskStatus::Running
        &&& forall|i: int|
            0 <= i < self.task_list().len() && #[trigger] self.status(i) == TaskStatus::Running
                ==> self.running() == Some(i as usize)
        &&& forall|i: int|
            0 <= i < self.task_list().len() && (#[trigger] self.task_list()[i]).gone()
                ==> self.status(i) == TaskStatus::Exited
    }

    /// The kernel is whole.
    pub open spec fn inv(&self) -> bool {
        &&& self.mem().wf()
        &&& self.frames().wf()
        &&& self.frames().fits(&self.mem())
        &&& self.task_list().len() <= MAX_TASK_ID + 1
        &&& self.memory_ok()
        &&& self.schedule_ok()
    }

    /// A kernel with no task: a memory of `pages` zeroed pages from page
    /// `base` on, the frames from the end of the kernel image up to the end
    /// of memory as the pool, and the kernel's address space as
    /// [`MemorySet::new_kernel`] builds it.
    #[verifier::spinoff_prover]
    pub fn new(layout: &KernelLayout, env: KernelEnv, base: PhysPageNum, pages: usize) -> (r: Result<
        Kernel,
        MapError,
    >)
        requires
            layout.wf(),
            pages <= crate::memory::MAX_PAGES,
            base.0 + pages <= crate::address::PPN_LIMIT,
            env.strampoline == layout.strampoline,
            base.0 * 4096 <= layout.ekernel,
            crate::config::MEMORY_END <= (base.0 + pages) * 4096,
            (layout.ekernel + 4095) / 4096 <= crate::config::MEMORY_END / 4096,
        ensures
            match r {
                Ok(kernel) => {
                    &&& kernel.inv()
                    &&& kernel.task_list().len() == 0
                    &&& kernel.ready().len() == 0
                    &&& kernel.running().is_none()
                    &&& kernel.environment() == env
                    &&& kernel.mem().base() == base.0
                    &&& kernel.mem().page_count() == pages
                    &&& kernel.space().area_list().len() == 5
                    &&& forall|i: int|
                        0 <= i < 5 ==> (#[trigger] kernel.space().area_list()[i]).shape()
                            == layout.areas()[i]
                    &&& kernel.space().maps(&kernel.mem(), crate::memory_set::trampoline_page())
                        == Some(
                        crate::memory_set::trampoline_entry(
                            crate::memory_set::trampoline_frame(layout.strampoline),
                        ),
                    )
                },
                Err(e) => crate::memory_set::mapping_failed(
                    e,
                    layout.areas(),
                    5,
                    crate::config::MEMORY_END / 4096 - (layout.ekernel + 4095) / 4096,
                ),
            },
            crate::memory_set::shapes_clear(layout.areas()) && crate::config::MEMORY_END / 4096 - (
            layout.ekernel + 4095) / 4096 >= 3 + crate::memory_set::total_frames(
                layout.areas(),
                5,
            ) ==> r.is_ok(),
    {
        let mut memory = PhysMemory::new(base, pages);
        let mut allocator = StackFrameAllocator::new();
        init_frame_allocator(&mut allocator, layout.ekernel, crate::config::MEMORY_END);
        let kernel_space = match MemorySet::new_kernel(layout, &mut allocator, &mut memory) {
            Ok(space) => space,
            Err(e) => {
                return Err(e);
            },
        };
        let kernel = Kernel {
            memory,
            allocator,
            kernel_space,
            tasks: Vec::new(),
            manager: TaskManager::new(),
            processor: Processor::new(),
            env,
        };
        proof {
            reveal(Kernel::memory_ok);
        }
        Ok(kernel)
    }

    /// Takes in the program whose image is the file in `elf_data` as a new
    /// task: sets it up as [`TaskControlBlock::new`] does, with the next
    /// free admission index, and puts it at the back of the ready queue.
    /// Returns the handle of the task.
    ///
    /// If the task cannot be set up, no task is added, and every frame taken
    /// for it is given back, but for tables that the kernel's address space
    /// may have gained for the kernel stack.
    #[verifier::spinoff_prover]
    pub fn load_task(&mut self, elf_data: &[u8]) -> (r: Result<usize, LoadError>)
        requires
            old(self).inv(),
        ensures
            final(self).inv(),
            final(self).environment() == old(self).environment(),
            final(self).running() == old(self).running(),
            forall|i: int|
                0 <= i < old(self).task_list().len() ==> #[trigger] final(self).task_list()[i]
                    == old(self).task_list()[i],
            match r {
                Ok(pid) => {
                    &&& pid == old(self).task_list().len()
                    &&& final(self).task_list().len() == pid + 1
                    &&& final(self).ready() == old(self).ready().push(pid)
                    &&& image_of(elf_data@) matches Ok((entry, segs)) && task_created(
                        segs,
                        entry,
                        elf_data@,
                        pid as u64,
                        old(self).environment(),
                        &old(self).space(),
                        &old(self).frames(),
                        &old(self).mem(),
                        &final(self).task_list()[pid as int],
                        &final(self).space(),
                        &final(self).frames(),
                        &final(self).mem(),
                    )
                },
                Err(e) => {
                    &&& final(self).task_list() == old(self).task_list()
                    &&& final(self).ready() == old(self).ready()
                    &&& forall|q: PhysPageNum| #[trigger]
                        final(self).frames().is_allocated(q) <==> old(self).frames().is_allocated(q)
                            || final(self).space().owns(q)
                    &&& forall|v: VirtPageNum|
                        v.is_valid() ==> #[trigger] final(self).space().maps(&final(self).mem(), v)
                            == old(self).space().maps(&old(self).mem(), v)
                    &&& e != LoadError::NoKernelStack ==> match image_of(elf_data@) {
                        Ok((entry, segs)) => crate::task::task::task_refused(
                            e,
                            segs,
                            elf_data@.len() as int,
                            old(self).task_list().len() as u64,
                            &old(self).space(),
                            &old(self).frames(),
                            &old(self).mem(),
                        ) && !crate::task::task::task_fits(
                            segs,
                            elf_data@.len() as int,
                            old(self).task_list().len() as u64,
                            &old(self).space(),
                            &old(self).frames(),
                            &old(self).mem(),
                        ),
                        Err(_) => true,
                    }
                    &&& e == LoadError::NoKernelStack <==> old(self).task_list().len()
                        > MAX_TASK_ID
                    &&& e != LoadError::NoKernelStack ==> (image_of(elf_data@) matches Err(cause)
                        <==> e matches LoadError::Image(_))
                    &&& e matches LoadError::Image(cause) ==> image_of(elf_data@) == Err::<
                        (u64, Seq<crate::image::SegmentHeader>),
                        crate::image::ImageError,
                    >(cause)
                },
            },
    {
        let ghost k0 = *self;
        let pid = self.tasks.len();
        proof {
            reveal(Kernel::memory_ok);
        }
        if pid as u64 > MAX_TASK_ID {
            proof {
                crate::frame_allocator::lemma_step_ok_refl(k0.frames()@, &k0.mem(), Set::empty());
                lemma_space_survives(
                    &k0.space(),
                    &k0.frames(),
                    &k0.mem(),
                    &k0.frames(),
                    &k0.mem(),
                    Set::empty(),
                );
            }
            return Err(LoadError::NoKernelStack);
        }
        let created = TaskControlBlock::new(
            elf_data,
            pid as u64,
            &mut self.kernel_space,
            &self.env,
            &mut self.allocator,
            &mut self.memory,
        );
        proof {
            lemma_tasks_survive(&k0, self);
        }
        let task = match created {
            Ok(task) => task,
            Err(e) => {
                return Err(e);
            },
        };
        self.tasks.push(task);
        self.manager.add(pid);
        proof {
            assert(self.task_list().drop_last() =~= k0.task_list());
            lemma_task_added(&k0, self, pid as int);
        }
        Ok(pid)
    }

    /// Task `i` of `after` is task `i` of `self` with the state `status` and
    /// the exit code `code`; every other task, and everything else but the
    /// ready queue and the processor, is the same in both.
    pub open spec fn task_updated(
        &self,
        after: &Kernel,
        i: int,
        status: TaskStatus,
        code: i32,
    ) -> bool {
        &&& after.mem() == self.mem()
        &&& after.frames() == self.frames()
        &&& after.space() == self.space()
        &&& after.environment() == self.environment()
        &&& after.task_list().len() == self.task_list().len()
        &&& 0 <= i < self.task_list().len()
        &&& forall|j: int|
            0 <= j < self.task_list().len() && j != i ==> #[trigger] after.task_list()[j]
                == self.task_list()[j]
        &&& after.task_list()[i].task_status == status
        &&& after.task_list()[i].exit_code == code
        &&& after.task_list()[i].task_cx == self.task_list()[i].task_cx
        &&& after.task_list()[i].memory_set == self.task_list()[i].memory_set
        &&& after.task_list()[i].trap_cx_ppn == self.task_list()[i].trap_cx_ppn
        &&& after.task_list()[i].base_size == self.task_list()[i].base_size
        &&& after.task_list()[i].pid == self.task_list()[i].pid
    }

    /// Task `i` of `after` is task `i` of `self` after its end with the code
    /// `code`: it has exited and is gone, and every frame of its address
    /// space is free again. Every other task, the kernel's address space and
    /// the environment are the same in both, and no frame of another owner
    /// was touched.
    pub open spec fn task_ended(&self, after: &Kernel, i: int, code: i32) -> bool {
        let space = self.task_list()[i].memory_set;
        &&& after.space() == self.space()
        &&& after.environment() == self.environment()
        &&& after.task_list().len() == self.task_list().len()
        &&& 0 <= i < self.task_list().len()
        &&& forall|j: int|
            0 <= j < self.task_list().len() && j != i ==> #[trigger] after.task_list()[j]
                == self.task_list()[j]
        &&& after.task_list()[i].task_status == TaskStatus::Exited
        &&& after.task_list()[i].exit_code == code
        &&& after.task_list()[i].task_cx == self.task_list()[i].task_cx
        &&& after.task_list()[i].trap_cx_ppn == self.task_list()[i].trap_cx_ppn
        &&& after.task_list()[i].base_size == self.task_list()[i].base_size
        &&& after.task_list()[i].pid == self.task_list()[i].pid
        &&& after.task_list()[i].gone()
        &&& forall|q: PhysPageNum| #[trigger]
            after.frames().is_allocated(q) <==> self.frames().is_allocated(q) && !space.owns(q)
        &&& others_untouched(
            self.frames()@,
            &self.mem(),
            after.frames()@,
            &after.mem(),
            space.frame_set(),
        )
    }

    /// Nothing but the ready queue and the processor differs between `self`
    /// and `after`.
    pub open spec fn tasks_kept(&self, after: &Kernel) -> bool {
        &&& after.mem() == self.mem()
        &&& after.frames() == self.frames()
        &&& after.space() == self.space()
        &&& after.environment() == self.environment()
        &&& after.task_list() == self.task_list()
    }

    /// Sets the state of task `pid`, and its exit code.
    #[verifier::spinoff_prover]
    fn set_status(&mut self, pid: usize, status: TaskStatus, code: i32)
        requires
            pid < old(self).task_list().len(),
            old(self).memory_ok(),
        ensures
            old(self).task_updated(final(self), pid as int, status, code),
            final(self).ready() == old(self).ready(),
            final(self).running() == old(self).running(),
            final(self).memory_ok(),
    {
        let ghost k0 = *self;
        let task = &mut self.tasks[pid];
        task.task_status = status;
        task.exit_code = code;
        proof {
            lemma_status_changed(&k0, self, pid as int);
        }
    }

    /// One pass of the idle flow of control: takes the task at the front of
    /// the ready queue, if there is one and no task runs, marks it as
    /// running and puts it on the processor. Returns the handle of the
    /// task, to whose context the processor is to switch.
    #[verifier::spinoff_prover]
    pub fn run_tasks(&mut self) -> (r: Option<usize>)
        requires
            old(self).inv(),
        ensures
            final(self).inv(),
            match r {
                Some(pid) => {
                    &&& old(self).running().is_none()
                    &&& old(self).ready().len() > 0
                    &&& pid == old(self).ready()[0]
                    &&& final(self).ready() == old(self).ready().drop_first()
                    &&& final(self).running() == Some(pid)
                    &&& old(self).task_updated(
                        final(self),
                        pid as int,
                        TaskStatus::Running,
                        old(self).task_list()[pid as int].exit_code,
                    )
                },
                None => {
                    &&& old(self).running().is_some() || old(self).ready().len() == 0
                    &&& old(self).tasks_kept(final(self))
                    &&& final(self).ready() == old(self).ready()
                    &&& final(self).running() == old(self).running()
                },
            },
    {
        let ghost k0 = *self;
        if self.processor.current().is_some() {
            return None;
        }
        match self.manager.fetch() {
            Some(pid) => {
                proof {
                    lemma_memory_kept(&k0, self);
                }
                assert(k0.ready()[0] == pid);
                let code = self.tasks[pid].exit_code;
                self.set_status(pid, TaskStatus::Running, code);
                let ghost k1 = *self;
                self.processor.set_current(pid);
                proof {
                    lemma_memory_kept(&k1, self);
                    lemma_dispatched(&k0, self, pid as int);
                }
                Some(pid)
            },
            None => {
                proof {
                    lemma_kernel_kept(&k0, self);
                }
                None
            },
        }
    }

    /// Takes the running task off the processor; the task keeps its state.
    /// The caller decides where it goes.
    #[verifier::spinoff_prover]
    pub fn take_current_task(&mut self) -> (r: Option<usize>)
        ensures
            r == old(self).running(),
            final(self).running().is_none(),
            old(self).tasks_kept(final(self)),
            final(self).ready() == old(self).ready(),
    {
        self.processor.take_current()
    }

    /// The handle of the task that runs, if one does.
    #[verifier::spinoff_prover]
    pub fn current_task(&self) -> (r: Option<usize>)
        ensures
            r == self.running(),
    {
        self.processor.current()
    }

    /// The running task gives up the processor: it becomes ready and goes to
    /// the back of the ready queue. Returns the handle of the task, from
    /// whose context the processor is to switch to the idle flow of
    /// control; `None`, and nothing changes, if no task runs.
    #[verifier::spinoff_prover]
    pub fn suspend_current_and_run_next(&mut self) -> (r: Option<usize>)
        requires
            old(self).inv(),
        ensures
            final(self).inv(),
            r == old(self).running(),
            final(self).running().is_none(),
            match r {
                Some(pid) => {
                    &&& final(self).ready() == old(self).ready().push(pid)
                    &&& old(self).task_updated(
                        final(self),
                        pid as int,
                        TaskStatus::Ready,
                        old(self).task_list()[pid as int].exit_code,
                    )
                },
                None => old(self).tasks_kept(final(self)) && final(self).ready() == old(self).ready(),
            },
    {
        let ghost k0 = *self;
        match self.processor.take_current() {
            Some(pid) => {
                proof {
                    lemma_memory_kept(&k0, self);
                }
                let code = self.tasks[pid].exit_code;
                self.set_status(pid, TaskStatus::Ready, code);
                let ghost k1 = *self;
                self.manager.add(pid);
                proof {
                    lemma_memory_kept(&k1, self);
                    lemma_suspended(&k0, self, pid as int);
                }
                Some(pid)
            },
            None => {
                proof {
                    lemma_kernel_kept(&k0, self);
                }
                None
            },
        }
    }

    /// The running task ends with the code `exit_code`: it is marked as
    /// exited, keeps the code, and goes to no queue, so that it never runs
    /// again; its address space is taken down and its frames are free
    /// again. Returns the handle of the task, from whose context the
    /// processor is to switch to the idle flow of control; `None`, and
    /// nothing changes, if no task runs.
    #[verifier::spinoff_prover]
    pub fn exit_current_and_run_next(&mut self, exit_code: i32) -> (r: Option<usize>)
        requires
            old(self).inv(),
        ensures
            final(self).inv(),
            r == old(self).running(),
            final(self).running().is_none(),
            final(self).ready() == old(self).ready(),
            match r {
                Some(pid) => old(self).task_ended(final(self), pid as int, exit_code),
                None => old(self).tasks_kept(final(self)),
            },
    {
        let ghost k0 = *self;
        match self.processor.take_current() {
            Some(pid) => {
                proof {
                    lemma_memory_kept(&k0, self);
                    lemma_task_of(&k0, pid as int);
                }
                self.set_status(pid, TaskStatus::Exited, exit_code);
                let mut space = MemorySet::hollow();
                let task = &mut self.tasks[pid];
                core::mem::swap(&mut task.memory_set, &mut space);
                space.release(&mut self.allocator, &mut self.memory);
                proof {
                    lemma_task_released(&k0, self, pid as int);
                }
                Some(pid)
            },
            None => {
                proof {
                    lemma_kernel_kept(&k0, self);
                }
                None
            },
        }
    }

    /// The code with which task `pid` ended; `None` if there is no such
    /// task or it has not ended.
    #[verifier::spinoff_prover]
    pub fn exit_code_of(&self, pid: usize) -> (r: Option<i32>)
        ensures
            r == if pid < self.task_list().len() && self.status(pid as int) == TaskStatus::Exited {
                Some(self.task_list()[pid as int].exit_code)
            } else {
                None
            },
    {
        if pid < self.tasks.len() {
            match self.tasks[pid].task_status {
                TaskStatus::Exited => Some(self.tasks[pid].exit_code),
                _ => None,
            }
        } else {
            None
        }
    }

    /// The state of task `pid`; `None` if there is no such task.
    #[verifier::spinoff_prover]
    pub fn task_status(&self, pid: usize) -> (r: Option<TaskStatus>)
        ensures
            r == if pid < self.task_list().len() {
                Some(self.status(pid as int))
            } else {
                None
            },
    {
        if pid < self.tasks.len() {
            Some(self.tasks[pid].task_status)
        } else {
            None
        }
    }

    /// Physical memory as the kernel holds it.
    #[verifier::spinoff_prover]
    pub fn memory(&self) -> (m: &PhysMemory)
        ensures
            *m == self.mem(),
    {
        &self.memory
    }

    /// The pool of frames as the kernel holds it.
    #[verifier::spinoff_prover]
    pub fn allocator(&self) -> (a: &StackFrameAllocator)
        ensures
            *a == self.frames(),
    {
        &self.allocator
    }

    /// The word that names the page table of the kernel to the hardware.
    #[verifier::spinoff_prover]
    pub fn kernel_token(&self) -> (t: u64)
        ensures
            t == self.space().table().spec_token(),
    {
        self.kernel_space.token()
    }

    /// The kernel context from which task `pid` resumes; `None` if there is
    /// no such task.
    #[verifier::spinoff_prover]
    pub fn task_context(&self, pid: usize) -> (r: Option<crate::task::context::TaskContext>)
        ensures
            r == if pid < self.task_list().len() {
                Some(self.task_list()[pid as int].task_cx)
            } else {
                None
            },
    {
        if pid < self.tasks.len() {
            Some(self.tasks[pid].task_cx)
        } else {
            None
        }
    }

    /// The frame of the trap context of task `pid`; `None` if there is no
    /// such task.
    #[verifier::spinoff_prover]
    pub fn trap_cx_frame(&self, pid: usize) -> (r: Option<PhysPageNum>)
        ensures
            r == if pid < self.task_list().len() {
                Some(self.task_list()[pid as int].trap_cx_ppn)
            } else {
                None
            },
    {
        if pid < self.tasks.len() {
            Some(self.tasks[pid].trap_cx_ppn)
        } else {
            None
        }
    }

    /// The number of tasks.
    #[verifier::spinoff_prover]
    pub fn task_count(&self) -> (n: usize)
        ensures
            n == self.task_list().len(),
    {
        self.tasks.len()
    }

    /// The number of tasks in the ready queue.
    #[verifier::spinoff_prover]
    pub fn ready_count(&self) -> (n: usize)
        ensures
            n == self.ready().len(),
    {
        self.manager.len()
    }

    /// The word that names the page table of the running task to the
    /// hardware; `None` if no task runs.
    #[verifier::spinoff_prover]
    pub fn current_user_token(&self) -> (r: Option<u64>)
        requires
            self.inv(),
        ensures
            r == match self.running() {
                Some(pid) => Some(self.task_list()[pid as int].memory_set.table().spec_token()),
                None => None,
            },
    {
        match self.processor.current() {
            Some(pid) => Some(self.tasks[pid].get_user_token()),
            None => None,
        }
    }

    /// The trap context of the running task, read from its frame; `None` if
    /// no task runs.
    #[verifier::spinoff_prover]
    pub fn current_trap_cx(&self) -> (r: Option<crate::trap::context::TrapContext>)
        requires
            self.inv(),
        ensures
            match r {
                Some(cx) => self.running() matches Some(pid) && cx.stored_at(
                    &self.mem(),
                    self.task_list()[pid as int].trap_cx_ppn,
                ),
                None => self.running().is_none(),
            },
    {
        proof {
            reveal(Kernel::memory_ok);
        }
        match self.processor.current() {
            Some(pid) => Some(self.tasks[pid].get_trap_cx(&self.memory)),
            None => None,
        }
    }

    /// The trap context of task `pid`, read from its frame; `None` if there
    /// is no such task or the task has ended.
    #[verifier::spinoff_prover]
    pub fn trap_cx_of(&self, pid: usize) -> (r: Option<crate::trap::context::TrapContext>)
        requires
            self.inv(),
        ensures
            r.is_some() <==> pid < self.task_list().len() && self.status(pid as int)
                != TaskStatus::Exited,
            r matches Some(cx) ==> cx.stored_at(
                &self.mem(),
                self.task_list()[pid as int].trap_cx_ppn,
            ),
    {
        proof {
            reveal(Kernel::memory_ok);
        }
        if pid < self.tasks.len() {
            match self.tasks[pid].task_status {
                TaskStatus::Exited => None,
                _ => Some(self.tasks[pid].get_trap_cx(&self.memory)),
            }
        } else {
            None
        }
    }
}

/// A kernel that differs from one that fits into memory in nothing but the
/// ready queue and the processor fits into memory.
#[verifier::spinoff_prover]
proof fn lemma_memory_kept(k0: &Kernel, k1: &Kernel)
    requires
        k0.memory_ok(),
        k0.tasks_kept(k1),
    ensures
        k1.memory_ok(),
{
    reveal(Kernel::memory_ok);
}

/// A kernel that differs from a whole one in nothing is whole.
#[verifier::spinoff_prover]
proof fn lemma_kernel_kept(k0: &Kernel, k1: &Kernel)
    requires
        k0.inv(),
        k0.tasks_kept(k1),
        k1.ready() == k0.ready(),
        k1.running() == k0.running(),
    ensures
        k1.inv(),
{
    lemma_memory_kept(k0, k1);
    assert forall|k: int| 0 <= k < k1.ready().len() implies (#[trigger] k1.ready()[k])
        < k1.task_list().len() && k1.status(k1.ready()[k] as int) == TaskStatus::Ready by {
        assert(k0.status(k0.ready()[k] as int) == TaskStatus::Ready);
    }
    assert forall|i: int|
        0 <= i < k1.task_list().len() && #[trigger] k1.status(i)
            == TaskStatus::Ready implies k1.ready().contains(i as usize) by {
        assert(k0.status(i) == TaskStatus::Ready);
    }
    assert forall|i: int|
        0 <= i < k1.task_list().len() && #[trigger] k1.status(i)
            == TaskStatus::Running implies k1.running() == Some(i as usize) by {
        assert(k0.status(i) == TaskStatus::Running);
    }
}

/// A kernel in which a task changed its state or its exit code, and nothing
/// else, still fits into memory.
#[verifier::spinoff_prover]
proof fn lemma_status_changed(k0: &Kernel, k1: &Kernel, i: int)
    requires
        k0.memory_ok(),
        k0.task_updated(k1, i, k1.task_list()[i].task_status, k1.task_list()[i].exit_code),
    ensures
        k1.memory_ok(),
{
    reveal(Kernel::memory_ok);
    let mem = &k0.mem();
    let a = &k0.frames();
    assert forall|j: int| 0 <= j < k1.task_list().len() implies ((#[trigger] k1.task_list()[j]).inv(
        mem,
        a,
    ) || k1.task_list()[j].gone()) && k1.task_list()[j].pid == j && mem.contains(
        k1.task_list()[j].trap_cx_ppn,
    ) by {
        assert(k0.task_list()[j].inv(mem, a) || k0.task_list()[j].gone());
    }
    assert forall|j: int, p: PhysPageNum|
        0 <= j < k1.task_list().len() && #[trigger] k1.task_list()[j].memory_set.owns(
            p,
        ) implies !k1.space().owns(p) by {
        assert(k0.task_list()[j].memory_set.owns(p));
    }
    assert forall|j: int, l: int, p: PhysPageNum|
        0 <= j < k1.task_list().len() && 0 <= l < k1.task_list().len() && j != l
            && #[trigger] k1.task_list()[j].memory_set.owns(p) implies !#[trigger] k1.task_list()[l].memory_set.owns(
        p,
    ) by {
        assert(k0.task_list()[j].memory_set.owns(p));
    }
}

/// A kernel in which the task at the front of the ready queue was put on
/// the free processor is whole.
#[verifier::spinoff_prover]
proof fn lemma_dispatched(k0: &Kernel, k1: &Kernel, pid: int)
    requires
        k0.inv(),
        k0.running().is_none(),
        k0.ready().len() > 0,
        pid == k0.ready()[0],
        k1.memory_ok(),
        k1.ready() == k0.ready().drop_first(),
        k1.running() == Some(pid as usize),
        k0.task_updated(k1, pid, TaskStatus::Running, k0.task_list()[pid].exit_code),
    ensures
        k1.inv(),
{
    let q0 = k0.ready();
    let q1 = k1.ready();
    assert forall|k: int| 0 <= k < q1.len() implies (#[trigger] q1[k]) < k1.task_list().len()
        && k1.status(q1[k] as int) == TaskStatus::Ready by {
        assert(q1[k] == q0[k + 1]);
        assert(q0[k + 1] != q0[0]);
    }
    assert(q1.no_duplicates()) by {
        assert forall|i: int, j: int| 0 <= i < q1.len() && 0 <= j < q1.len() && i != j implies q1[i]
            != q1[j] by {
            assert(q1[i] == q0[i + 1] && q1[j] == q0[j + 1]);
        }
    }
    assert forall|i: int|
        0 <= i < k1.task_list().len() && #[trigger] k1.status(i)
            == TaskStatus::Ready implies q1.contains(i as usize) by {
        assert(i != pid);
        assert(k0.status(i) == TaskStatus::Ready);
        let k = choose|k: int| 0 <= k < q0.len() && q0[k] == i as usize;
        assert(q1[k - 1] == i as usize);
    }
    assert forall|i: int|
        0 <= i < k1.task_list().len() && #[trigger] k1.status(i)
            == TaskStatus::Running implies k1.running() == Some(i as usize) by {
        if i != pid {
            assert(k0.status(i) == TaskStatus::Running);
        }
    }
}

/// A kernel in which the running task became ready and went to the back of
/// the ready queue is whole.
#[verifier::spinoff_prover]
proof fn lemma_suspended(k0: &Kernel, k1: &Kernel, pid: int)
    requires
        k0.inv(),
        k0.running() == Some(pid as usize),
        k1.memory_ok(),
        k1.ready() == k0.ready().push(pid as usize),
        k1.running().is_none(),
        k0.task_updated(k1, pid, TaskStatus::Ready, k0.task_list()[pid].exit_code),
    ensures
        k1.inv(),
{
    let q0 = k0.ready();
    let q1 = k1.ready();
    assert(k0.status(pid) == TaskStatus::Running);
    assert forall|k: int| 0 <= k < q0.len() implies q0[k] != pid as usize by {
        assert(k0.status(q0[k] as int) == TaskStatus::Ready);
    }
    assert forall|k: int| 0 <= k < q1.len() implies (#[trigger] q1[k]) < k1.task_list().len()
        && k1.status(q1[k] as int) == TaskStatus::Ready by {
        if k < q0.len() {
            assert(q1[k] == q0[k]);
        }
    }
    assert(q1.no_duplicates()) by {
        assert forall|i: int, j: int| 0 <= i < q1.len() && 0 <= j < q1.len() && i != j implies q1[i]
            != q1[j] by {
            if i < q0.len() {
                assert(q1[i] == q0[i]);
            }
            if j < q0.len() {
                assert(q1[j] == q0[j]);
            }
        }
    }
    assert forall|i: int|
        0 <= i < k1.task_list().len() && #[trigger] k1.status(i)
            == TaskStatus::Ready implies q1.contains(i as usize) by {
        if i != pid {
            assert(k0.status(i) == TaskStatus::Ready);
            let k = choose|k: int| 0 <= k < q0.len() && q0[k] == i as usize;
            assert(q1[k] == i as usize);
        } else {
            assert(q1[q0.len() as int] == pid as usize);
        }
    }
    assert forall|i: int|
        0 <= i < k1.task_list().len() && #[trigger] k1.status(i) == TaskStatus::Running implies false by {
        if i != pid {
            assert(k1.task_list()[i] == k0.task_list()[i]);
            assert(k0.status(i) == TaskStatus::Running);
            assert(k0.running() == Some(i as usize));
        } else {
            assert(k1.task_list()[pid].task_status != TaskStatus::Running);
        }
    }
}

/// A kernel in which the running task ended and gave its frames back is
/// whole.
#[verifier::spinoff_prover]
proof fn lemma_task_released(k0: &Kernel, k1: &Kernel, pid: int)
    requires
        k0.inv(),
        k0.running() == Some(pid as usize),
        k1.mem().wf(),
        k1.frames().wf(),
        k1.frames().fits(&k1.mem()),
        k1.ready() == k0.ready(),
        k1.running().is_none(),
        k0.task_ended(k1, pid, k1.task_list()[pid].exit_code),
    ensures
        k1.inv(),
{
    reveal(Kernel::memory_ok);
    let m0 = &k0.mem();
    let a0 = &k0.frames();
    let m1 = &k1.mem();
    let a1 = &k1.frames();
    let ended = k0.task_list()[pid];
    let mine = ended.memory_set.frame_set();
    let q0 = k0.ready();
    assert(k0.status(pid) == TaskStatus::Running);
    assert(ended.inv(m0, a0) || ended.gone());
    assert forall|p: PhysPageNum| #[trigger] k0.space().owns(p) implies !mine.contains(p) by {
        if ended.memory_set.owns(p) {
            assert(!k0.space().owns(p));
        }
    }
    lemma_space_survives(&k0.space(), a0, m0, a1, m1, mine);
    assert forall|i: int| 0 <= i < k1.task_list().len() implies ((#[trigger] k1.task_list()[i]).inv(
        m1,
        a1,
    ) || k1.task_list()[i].gone()) && k1.task_list()[i].pid == i && m1.contains(
        k1.task_list()[i].trap_cx_ppn,
    ) by {
        let t = k0.task_list()[i];
        assert(t.inv(m0, a0) || t.gone());
        if i != pid && !t.gone() {
            assert forall|p: PhysPageNum| #[trigger] t.memory_set.owns(p) implies !mine.contains(
                p,
            ) by {
                if ended.memory_set.owns(p) {
                    assert(!k0.task_list()[i].memory_set.owns(p));
                }
            }
            lemma_space_survives(&t.memory_set, a0, m0, a1, m1, mine);
        }
    }
    assert forall|i: int, p: PhysPageNum|
        0 <= i < k1.task_list().len() && #[trigger] k1.task_list()[i].memory_set.owns(
            p,
        ) implies !k1.space().owns(p) by {
        if i == pid {
            crate::memory_set::lemma_hollow_owns_nothing(&k1.task_list()[i].memory_set, p);
        } else {
            assert(k0.task_list()[i].memory_set.owns(p));
        }
    }
    assert forall|i: int, j: int, p: PhysPageNum|
        0 <= i < k1.task_list().len() && 0 <= j < k1.task_list().len() && i != j
            && #[trigger] k1.task_list()[i].memory_set.owns(p) implies !#[trigger] k1.task_list()[j].memory_set.owns(
        p,
    ) by {
        if i == pid {
            crate::memory_set::lemma_hollow_owns_nothing(&k1.task_list()[i].memory_set, p);
        } else if j == pid {
            if k1.task_list()[j].memory_set.owns(p) {
                crate::memory_set::lemma_hollow_owns_nothing(&k1.task_list()[j].memory_set, p);
            }
        } else {
            assert(k0.task_list()[i].memory_set.owns(p));
        }
    }
    assert(k1.memory_ok());
    assert forall|k: int| 0 <= k < q0.len() implies (#[trigger] q0[k]) < k1.task_list().len()
        && k1.status(q0[k] as int) == TaskStatus::Ready by {
        assert(k0.status(q0[k] as int) == TaskStatus::Ready);
    }
    assert forall|i: int|
        0 <= i < k1.task_list().len() && #[trigger] k1.status(i)
            == TaskStatus::Ready implies q0.contains(i as usize) by {
        assert(i != pid);
        assert(k0.status(i) == TaskStatus::Ready);
    }
    assert forall|i: int|
        0 <= i < k1.task_list().len() && #[trigger] k1.status(i) == TaskStatus::Running implies false by {
        if i != pid {
            assert(k1.task_list()[i] == k0.task_list()[i]);
            assert(k0.status(i) == TaskStatus::Running);
            assert(k0.running() == Some(i as usize));
        }
    }
    assert forall|i: int|
        0 <= i < k1.task_list().len() && (#[trigger] k1.task_list()[i]).gone() implies k1.status(i)
        == TaskStatus::Exited by {
        if i != pid {
            assert(k1.task_list()[i] == k0.task_list()[i]);
        }
    }
}

/// The tasks of a kernel survive a step of the kernel's address space in
/// which no frame of a task was touched and in which the kernel's address
/// space gained nothing but frames that were free.
#[verifier::spinoff_prover]
proof fn lemma_tasks_survive(k0: &Kernel, k1: &Kernel)
    requires
        k0.inv(),
        k1.task_list() == k0.task_list(),
        k1.ready() == k0.ready(),
        k1.running() == k0.running(),
        k1.environment() == k0.environment(),
        k1.space().inv(&k1.mem(), &k1.frames()),
        others_untouched(
            k0.frames()@,
            &k0.mem(),
            k1.frames()@,
            &k1.mem(),
            k0.space().frame_set(),
        ),
        forall|p: PhysPageNum| #[trigger]
            k1.space().owns(p) ==> k0.space().owns(p) || !k0.frames().is_allocated(p),
    ensures
        k1.inv(),
{
    reveal(Kernel::memory_ok);
    let m0 = &k0.mem();
    let a0 = &k0.frames();
    let m1 = &k1.mem();
    let a1 = &k1.frames();
    assert forall|i: int| 0 <= i < k1.task_list().len() implies ((#[trigger] k1.task_list()[i]).inv(
        m1,
        a1,
    ) || k1.task_list()[i].gone()) && k1.task_list()[i].pid == i && m1.contains(
        k1.task_list()[i].trap_cx_ppn,
    ) by {
        let t = k0.task_list()[i];
        assert(t.inv(m0, a0) || t.gone());
        if !t.gone() {
            assert forall|p: PhysPageNum| #[trigger] t.memory_set.owns(p) implies !k0.space().frame_set().contains(
                p,
            ) by {}
            lemma_space_survives(&t.memory_set, a0, m0, a1, m1, k0.space().frame_set());
            lemma_task_frame(&t, m0, a0);
            assert(t.memory_set.owns(t.trap_cx_ppn));
        }
    }
    assert forall|i: int|
        0 <= i < k1.task_list().len() && #[trigger] k1.status(i)
            == TaskStatus::Ready implies k1.ready().contains(i as usize) by {
        assert(k0.status(i) == TaskStatus::Ready);
    }
    assert forall|i: int|
        0 <= i < k1.task_list().len() && #[trigger] k1.status(i)
            == TaskStatus::Running implies k1.running() == Some(i as usize) by {
        assert(k0.status(i) == TaskStatus::Running);
    }
    crate::frame_allocator::lemma_step_ok_refl(a0@, m0, Set::empty());
    assert forall|i: int, p: PhysPageNum|
        0 <= i < k1.task_list().len() && #[trigger] k1.task_list()[i].memory_set.owns(
            p,
        ) implies !k1.space().owns(p) by {
        let t = k0.task_list()[i];
        assert(t.inv(m0, a0) || t.gone());
        if t.gone() {
            crate::memory_set::lemma_hollow_owns_nothing(&t.memory_set, p);
        }
        lemma_space_survives(&t.memory_set, a0, m0, a0, m0, Set::empty());
        assert(a0.is_allocated(p));
        assert(!k0.space().owns(p));
    }
    assert forall|i: int, j: int, p: PhysPageNum|
        0 <= i < k1.task_list().len() && 0 <= j < k1.task_list().len() && i != j
            && #[trigger] k1.task_list()[i].memory_set.owns(p) implies !#[trigger] k1.task_list()[j].memory_set.owns(
        p,
    ) by {
        assert(k0.task_list()[i].memory_set.owns(p));
    }
    assert(k1.memory_ok());
}

/// The frame of the trap context of a whole task is one of the frames of
/// the task's address space.
#[verifier::spinoff_prover]
proof fn lemma_task_frame(t: &TaskControlBlock, mem: &PhysMemory, a: &StackFrameAllocator)
    requires
        t.inv(mem, a),
    ensures
        t.memory_set.owns(t.trap_cx_ppn),
{
}

/// A kernel to which a task that was just set up was added is whole.
#[verifier::spinoff_prover]
proof fn lemma_task_added(k0: &Kernel, k1: &Kernel, pid: int)
    requires
        k0.inv(),
        pid == k0.task_list().len(),
        pid <= MAX_TASK_ID,
        k1.task_list().len() == pid + 1,
        k1.task_list().drop_last() == k0.task_list(),
        k1.ready() == k0.ready().push(pid as usize),
        k1.running() == k0.running(),
        k1.environment() == k0.environment(),
        k1.task_list()[pid].inv(&k1.mem(), &k1.frames()),
        k1.task_list()[pid].pid == pid,
        k1.task_list()[pid].task_status == TaskStatus::Ready,
        forall|p: PhysPageNum| #[trigger]
            k1.task_list()[pid].memory_set.owns(p) ==> !k1.space().owns(p)
                && !k0.frames().is_allocated(p),
        k1.space().inv(&k1.mem(), &k1.frames()),
        others_untouched(
            k0.frames()@,
            &k0.mem(),
            k1.frames()@,
            &k1.mem(),
            k0.space().frame_set(),
        ),
        forall|p: PhysPageNum| #[trigger]
            k1.space().owns(p) ==> k0.space().owns(p) || !k0.frames().is_allocated(p),
    ensures
        k1.inv(),
        forall|i: int|
            0 <= i < k0.task_list().len() ==> #[trigger] k1.task_list()[i] == k0.task_list()[i],
{
    reveal(Kernel::memory_ok);
    let m0 = &k0.mem();
    let a0 = &k0.frames();
    let m1 = &k1.mem();
    let a1 = &k1.frames();
    assert forall|i: int| 0 <= i < pid implies #[trigger] k1.task_list()[i] == k0.task_list()[i] by {
        assert(k1.task_list().drop_last()[i] == k1.task_list()[i]);
    }
    assert forall|i: int| 0 <= i < pid implies {
        let t = #[trigger] k0.task_list()[i];
        &&& t.inv(m1, a1) || t.gone()
        &&& forall|p: PhysPageNum| #[trigger]
            t.memory_set.owns(p) ==> a0.is_allocated(p) && !k1.space().owns(p)
    } by {
        let t = k0.task_list()[i];
        assert(t.inv(m0, a0) || t.gone());
        if t.gone() {
            assert forall|p: PhysPageNum| #[trigger] t.memory_set.owns(p) implies false by {
                crate::memory_set::lemma_hollow_owns_nothing(&t.memory_set, p);
            }
        } else {
            assert forall|p: PhysPageNum| #[trigger] t.memory_set.owns(p) implies !k0.space().frame_set().contains(
                p,
            ) by {}
            lemma_space_survives(&t.memory_set, a0, m0, a1, m1, k0.space().frame_set());
        }
    }
    assert forall|k: int| 0 <= k < k1.ready().len() implies (#[trigger] k1.ready()[k])
        < k1.task_list().len() && k1.status(k1.ready()[k] as int) == TaskStatus::Ready by {
        if k < k0.ready().len() {
            assert(k1.ready()[k] == k0.ready()[k]);
            assert(k0.ready()[k] < k0.task_list().len());
        }
    }
    assert(k1.ready().no_duplicates()) by {
        assert forall|i: int, j: int|
            0 <= i < k1.ready().len() && 0 <= j < k1.ready().len() && i != j implies k1.ready()[i]
            != k1.ready()[j] by {
            if i < k0.ready().len() {
                assert(k0.ready()[i] < pid);
            }
            if j < k0.ready().len() {
                assert(k0.ready()[j] < pid);
            }
        }
    }
    assert forall|i: int|
        0 <= i < k1.task_list().len() && #[trigger] k1.status(i)
            == TaskStatus::Ready implies k1.ready().contains(i as usize) by {
        if i < pid {
            assert(k0.status(i) == TaskStatus::Ready);
            assert(k0.ready().contains(i as usize));
            let k = choose|k: int| 0 <= k < k0.ready().len() && k0.ready()[k] == i as usize;
            assert(k1.ready()[k] == i as usize);
        } else {
            assert(k1.ready()[k0.ready().len() as int] == pid as usize);
        }
    }
    assert forall|i: int|
        0 <= i < k1.task_list().len() && #[trigger] k1.status(i)
            == TaskStatus::Running implies k1.running() == Some(i as usize) by {
        if i < pid {
            assert(k0.status(i) == TaskStatus::Running);
        }
    }
    assert forall|i: int| 0 <= i < k1.task_list().len() implies ((#[trigger] k1.task_list()[i]).inv(
        m1,
        a1,
    ) || k1.task_list()[i].gone()) && k1.task_list()[i].pid == i && m1.contains(
        k1.task_list()[i].trap_cx_ppn,
    ) by {
        if i < pid {
            let t = k0.task_list()[i];
            assert(t.inv(m0, a0) || t.gone());
            assert(m0.contains(t.trap_cx_ppn));
        }
    }
    assert forall|i: int|
        0 <= i < k1.task_list().len() && (#[trigger] k1.task_list()[i]).gone() implies k1.status(i)
        == TaskStatus::Exited by {
        if i < pid {
            assert(k0.task_list()[i].gone());
        } else {
            assert(k1.task_list()[pid].memory_set.data_set().contains(
                k1.task_list()[pid].trap_cx_ppn,
            ));
            crate::memory_set::lemma_hollow_owns_nothing(
                &k1.task_list()[pid].memory_set,
                k1.task_list()[pid].trap_cx_ppn,
            );
        }
    }
    assert forall|i: int, p: PhysPageNum|
        0 <= i < k1.task_list().len() && #[trigger] k1.task_list()[i].memory_set.owns(
            p,
        ) implies !k1.space().owns(p) by {
        if i < pid {
            let t = k0.task_list()[i];
            assert(t.memory_set.owns(p));
        }
    }
    assert forall|i: int, j: int, p: PhysPageNum|
        0 <= i < k1.task_list().len() && 0 <= j < k1.task_list().len() && i != j
            && #[trigger] k1.task_list()[i].memory_set.owns(p) implies !#[trigger] k1.task_list()[j].memory_set.owns(
        p,
    ) by {
        if i < pid && j < pid {
            assert(k0.task_list()[i].memory_set.owns(p));
        } else if i < pid {
            let t = k0.task_list()[i];
            assert(t.memory_set.owns(p));
        } else {
            if k0.task_list()[j].memory_set.owns(p) {
                let t = k0.task_list()[j];
                assert(t.memory_set.owns(p));
            }
        }
    }
    assert(k1.memory_ok());
}

/// A kernel in which bytes of a frame that holds a page of an area of task
/// `pid` were written, and nothing else changed, is whole.
#[verifier::spinoff_prover]
pub proof fn lemma_task_frame_written(k0: &Kernel, k1: &Kernel, pid: int, p: PhysPageNum)
    requires
        k0.inv(),
        0 <= pid < k0.task_list().len(),
        k0.task_list()[pid].memory_set.data_set().contains(p),
        k1.frames() == k0.frames(),
        k1.space() == k0.space(),
        k1.environment() == k0.environment(),
        k1.task_list() == k0.task_list(),
        k1.ready() == k0.ready(),
        k1.running() == k0.running(),
        k1.mem().wf(),
        k1.mem().same_range(&k0.mem()),
        forall|q: PhysPageNum|
            k0.mem().contains(q) && q != p ==> #[trigger] k1.mem().same_page(&k0.mem(), q),
    ensures
        k1.inv(),
{
    reveal(Kernel::memory_ok);
    let m0 = &k0.mem();
    let m1 = &k1.mem();
    let a = &k0.frames();
    let t = k0.task_list()[pid];
    assert(t.inv(m0, a) || t.gone());
    if t.gone() {
        crate::memory_set::lemma_hollow_owns_nothing(&t.memory_set, p);
    }
    assert(t.memory_set.owns(p));
    crate::memory_set::lemma_data_write(&t.memory_set, a, m0, m1, p);
    let mine = t.memory_set.frame_set();
    assert(others_untouched(a@, m0, a@, m1, mine)) by {
        assert forall|q: PhysPageNum|
            a@.is_allocated(q.0) && !mine.contains(q) implies #[trigger] crate::frame_allocator::frame_kept(
            a@,
            m0,
            m1,
            q,
        ) by {
            assert(m0.contains(q));
        }
    }
    lemma_space_survives(&k0.space(), a, m0, a, m1, mine);
    assert forall|j: int| 0 <= j < k1.task_list().len() implies ((#[trigger] k1.task_list()[j]).inv(
        m1,
        a,
    ) || k1.task_list()[j].gone()) && k1.task_list()[j].pid == j && m1.contains(
        k1.task_list()[j].trap_cx_ppn,
    ) && (!k1.task_list()[j].gone() ==> forall|v: VirtPageNum| #[trigger]
        k1.task_list()[j].memory_set.maps(m1, v) == k0.task_list()[j].memory_set.maps(m0, v)) by {
        let tj = k0.task_list()[j];
        assert(tj.inv(m0, a) || tj.gone());
        assert(m0.contains(tj.trap_cx_ppn));
        if j != pid && !tj.gone() {
            assert forall|q: PhysPageNum| #[trigger] tj.memory_set.owns(q) implies !mine.contains(
                q,
            ) by {
                if t.memory_set.owns(q) {
                    assert(k0.task_list()[j].memory_set.owns(q));
                }
            }
            lemma_space_survives(&tj.memory_set, a, m0, a, m1, mine);
        }
    }
    assert(k1.memory_ok());
    lemma_schedule_same(k0, k1);
}

/// A kernel with the same tasks, the same ready queue and the same
/// processor as one that keeps its tasks where their state says does so
/// too.
#[verifier::spinoff_prover]
proof fn lemma_schedule_same(k0: &Kernel, k1: &Kernel)
    requires
        k0.schedule_ok(),
        k0.task_list().len() <= MAX_TASK_ID + 1,
        k1.task_list() == k0.task_list(),
        k1.ready() == k0.ready(),
        k1.running() == k0.running(),
    ensures
        k1.schedule_ok(),
{
    assert forall|k: int| 0 <= k < k1.ready().len() implies (#[trigger] k1.ready()[k])
        < k1.task_list().len() && k1.status(k1.ready()[k] as int) == TaskStatus::Ready by {
        assert(k0.status(k0.ready()[k] as int) == TaskStatus::Ready);
    }
    assert forall|i: int|
        0 <= i < k1.task_list().len() && #[trigger] k1.status(i)
            == TaskStatus::Ready implies k1.ready().contains(i as usize) by {
        assert(k0.status(i) == TaskStatus::Ready);
    }
    assert forall|i: int|
        0 <= i < k1.task_list().len() && #[trigger] k1.status(i)
            == TaskStatus::Running implies k1.running() == Some(i as usize) by {
        assert(k0.status(i) == TaskStatus::Running);
    }
}

/// A task that has exited is final: it waits in no queue and does not run,
/// so that no pass of the scheduler selects it.
#[verifier::spinoff_prover]
pub proof fn lemma_exited_is_final(k: &Kernel, pid: int)
    requires
        k.inv(),
        0 <= pid < k.task_list().len(),
        k.status(pid) == TaskStatus::Exited,
    ensures
        !k.ready().contains(pid as usize),
        k.running() != Some(pid as usize),
{
    if k.ready().contains(pid as usize) {
        let at = choose|at: int| 0 <= at < k.ready().len() && k.ready()[at] == pid as usize;
        assert(k.status(k.ready()[at] as int) == TaskStatus::Ready);
    }
}

/// What is known of a task of a whole kernel: it is known by its handle, the
/// frame of its trap context lies in memory, and it is whole unless it has
/// exited.
#[verifier::spinoff_prover]
pub proof fn lemma_task_of(k: &Kernel, pid: int)
    requires
        k.inv(),
        0 <= pid < k.task_list().len(),
    ensures
        k.status(pid) != TaskStatus::Exited ==> k.task_list()[pid].inv(&k.mem(), &k.frames()),
        k.task_list()[pid].pid == pid,
        k.mem().contains(k.task_list()[pid].trap_cx_ppn),
        k.space().inv(&k.mem(), &k.frames()),
{
    reveal(Kernel::memory_ok);
}

impl Kernel {
    /// The frame of the trap context of task `pid`.
    pub open spec fn trap_frame(&self, pid: int) -> PhysPageNum {
        self.task_list()[pid].trap_cx_ppn
    }

    /// The memory of `after` is that of `self` but for the trap context of
    /// task `pid`, in which the resume address is `sepc` and, if `a0` is
    /// given, the register for results holds `a0`; and but for the bytes of
    /// frame `p`, if one is given.
    pub open spec fn context_updated(
        &self,
        after: &Kernel,
        pid: int,
        sepc: u64,
        a0: Option<u64>,
        written: Option<PhysPageNum>,
    ) -> bool {
        let frame = self.trap_frame(pid);
        &&& after.mem().same_range(&self.mem())
        &&& after.mem().word(frame, 33) == sepc
        &&& after.mem().word(frame, 10) == match a0 {
            Some(value) => value,
            None => self.mem().word(frame, 10),
        }
        &&& forall|i: int|
            0 <= i < 512 && i != 33 && i != 10 ==> #[trigger] after.mem().word(frame, i)
                == self.mem().word(frame, i)
        &&& forall|q: PhysPageNum|
            self.mem().contains(q) && q != frame && Some(q) != written
                ==> #[trigger] after.mem().same_page(&self.mem(), q)
    }

    /// Writes `cx` as the trap context of task `pid`, as the trap entry does
    /// with the registers of the task when it traps.
    #[verifier::spinoff_prover]
    pub fn store_trap_cx(&mut self, pid: usize, cx: &TrapContext)
        requires
            old(self).inv(),
            pid < old(self).task_list().len(),
            old(self).status(pid as int) != TaskStatus::Exited,
        ensures
            final(self).inv(),
            old(self).tasks_kept_but_memory(final(self)),
            cx.stored_at(&final(self).mem(), old(self).trap_frame(pid as int)),
            final(self).mem().same_range(&old(self).mem()),
            forall|i: int|
                37 <= i < 512 ==> #[trigger] final(self).mem().word(old(self).trap_frame(pid as int), i)
                    == old(self).mem().word(old(self).trap_frame(pid as int), i),
            forall|q: PhysPageNum|
                old(self).mem().contains(q) && q != old(self).trap_frame(pid as int)
                    ==> #[trigger] final(self).mem().same_page(&old(self).mem(), q),
    {
        let ghost k0 = *self;
        proof {
            lemma_task_of(&k0, pid as int);
        }
        let ppn = self.tasks[pid].trap_cx_ppn;
        cx.store(ppn, &mut self.memory);
        proof {
            assert forall|q: PhysPageNum|
                k0.mem().contains(q) && q != ppn implies #[trigger] self.mem().same_page(
                &k0.mem(),
                q,
            ) by {}
            lemma_task_frame_written(&k0, self, pid as int, ppn);
        }
    }

    /// Nothing but the content of memory differs between `self` and
    /// `after`.
    pub open spec fn tasks_kept_but_memory(&self, after: &Kernel) -> bool {
        &&& after.frames() == self.frames()
        &&& after.space() == self.space()
        &&& after.environment() == self.environment()
        &&& after.task_list() == self.task_list()
        &&& after.ready() == self.ready()
        &&& after.running() == self.running()
    }

    /// The `len` bytes at the address `ptr` of the address space of task
    /// `pid`, if they all lie in pages that are mapped to frames of memory.
    pub open spec fn user_bytes(&self, pid: int, ptr: u64, len: u64) -> Option<Seq<u8>> {
        if ptr + len > crate::address::VA_LIMIT {
            None
        } else {
            match chunks_of(
                &self.mem(),
                self.task_list()[pid].memory_set.table().root(),
                ptr as int,
                ptr + len,
            ) {
                None => None,
                Some(chunks) => if forall|i: int|
                    0 <= i < chunks.len() ==> self.mem().contains((#[trigger] chunks[i]).ppn) {
                    Some(bytes_of(&self.mem(), chunks))
                } else {
                    None
                },
            }
        }
    }

    /// Reads the `len` bytes at the address `ptr` of the address space of
    /// task `pid`. `None` if the bytes do not all lie in pages that are
    /// mapped to frames of memory.
    #[verifier::spinoff_prover]
    pub fn read_user(&self, pid: usize, ptr: u64, len: u64) -> (r: Option<Vec<u8>>)
        requires
            self.inv(),
            pid < self.task_list().len(),
            self.status(pid as int) != TaskStatus::Exited,
        ensures
            match r {
                Some(bytes) => self.user_bytes(pid as int, ptr, len) == Some(bytes@),
                None => self.user_bytes(pid as int, ptr, len).is_none(),
            },
    {
        proof {
            lemma_task_of(self, pid as int);
            lemma_space_walkable(
                &self.task_list()[pid as int].memory_set,
                &self.mem(),
                &self.frames(),
            );
            crate::page_table::lemma_token_bits(
                self.task_list()[pid as int].memory_set.table().root().0,
            );
            crate::address::lemma_address_bits(
                self.task_list()[pid as int].memory_set.table().spec_token(),
            );
        }
        if len > crate::address::VA_LIMIT || ptr > crate::address::VA_LIMIT - len {
            return None;
        }
        let token = self.tasks[pid].get_user_token();
        let chunks = match translated_byte_buffer(token, ptr, len, &self.memory) {
            Some(chunks) => chunks,
            None => {
                return None;
            },
        };
        let mut i: usize = 0;
        while i < chunks.len()
            invariant
                i <= chunks@.len(),
                self.mem().wf(),
                ptr + len <= crate::address::VA_LIMIT,
                chunks_of(
                    &self.mem(),
                    self.task_list()[pid as int].memory_set.table().root(),
                    ptr as int,
                    ptr + len,
                ) == Some(chunks@),
                forall|j: int| 0 <= j < i ==> self.mem().contains((#[trigger] chunks@[j]).ppn),
            decreases chunks@.len() - i,
        {
            if !self.memory.holds(chunks[i].ppn) {
                proof {
                    let found = chunks@;
                    assert(!self.mem().contains(found[i as int].ppn));
                    assert(!(forall|j: int|
                        0 <= j < found.len() ==> self.mem().contains((#[trigger] found[j]).ppn)));
                }
                return None;
            }
            i += 1;
        }
        Some(read_chunks(&chunks, &self.memory))
    }

    /// Writes the four bytes of `code`, the lowest first, to the address
    /// `ptr` of the address space of task `pid`. The bytes are written if
    /// `ptr` is a multiple of four and lies in a page of a framed area of
    /// the task that can be written in user mode, and not else.
    #[verifier::spinoff_prover]
    pub fn write_user_code(&mut self, pid: usize, ptr: u64, code: i32) -> (r: Option<PhysPageNum>)
        requires
            old(self).inv(),
            pid < old(self).task_list().len(),
            old(self).status(pid as int) != TaskStatus::Exited,
        ensures
            final(self).inv(),
            old(self).tasks_kept_but_memory(final(self)),
            final(self).mem().same_range(&old(self).mem()),
            r == old(self).writable_frame(pid as int, ptr),
            match r {
                Some(p) => {
                    &&& ptr % 4 == 0
                    &&& ptr < crate::address::VA_LIMIT
                    &&& old(self).task_list()[pid as int].memory_set.maps(
                        &old(self).mem(),
                        VirtPageNum(ptr / 4096),
                    ) matches Some(e) && e.spec_ppn() == p
                    &&& old(self).task_list()[pid as int].memory_set.data_set().contains(p)
                    &&& old(self).mem().contains(p)
                    &&& p != old(self).trap_frame(pid as int)
                    &&& forall|k: int|
                        0 <= k < 4 ==> #[trigger] final(self).mem().byte(p, ptr % 4096 + k)
                            == code_byte(code, k)
                    &&& forall|o: int|
                        0 <= o < 4096 && !(ptr % 4096 <= o < ptr % 4096 + 4) ==> #[trigger] final(self).mem().byte(p, o) == old(self).mem().byte(p, o)
                    &&& forall|q: PhysPageNum|
                        old(self).mem().contains(q) && q != p ==> #[trigger] final(self).mem().same_page(&old(self).mem(), q)
                },
                None => *final(self) == *old(self),
            },
    {
        let ghost k0 = *self;
        if ptr % 4 != 0 || ptr >= crate::address::VA_LIMIT {
            return None;
        }
        let vpn = VirtPageNum(ptr / 4096);
        let need = MapPermission::U().union(MapPermission::W());
        proof {
            assert(0x10u8 | 0x04u8 == 0x14u8) by (bit_vector);
        }
        let p = match self.tasks[pid].memory_set.frame_of(vpn, need) {
            Some(p) => p,
            None => {
                return None;
            },
        };
        proof {
            lemma_task_of(&k0, pid as int);
            let ms = &k0.task_list()[pid as int].memory_set;
            let i = choose|i: int|
                0 <= i < ms.area_list().len() && #[trigger] ms.area_list()[i].framed().contains_key(
                    vpn.0,
                ) && ms.area_list()[i].framed()[vpn.0] == p && ms.area_list()[i].perm().bits
                    & need.bits == need.bits && ms.area_list()[i].kind()
                    == crate::memory_set::MapType::Framed;
            lemma_frame_of(ms, &k0.mem(), &k0.frames(), i, vpn.0);
            crate::page_table::lemma_flag_unions();
            assert(0x10u8 | 0x04u8 == 0x14u8) by (bit_vector);
            lemma_not_trap_frame(&k0, pid as int, i, vpn.0);
        }
        let off: usize = (ptr % 4096) as usize;
        let b0: u8 = #[verifier::truncate]
        (code as u8);
        let b1: u8 = #[verifier::truncate]
        ((code >> 8) as u8);
        let b2: u8 = #[verifier::truncate]
        ((code >> 16) as u8);
        let b3: u8 = #[verifier::truncate]
        ((code >> 24) as u8);
        let ghost m0 = self.memory;
        self.memory.write_byte(p, off, b0);
        let ghost m1 = self.memory;
        self.memory.write_byte(p, off + 1, b1);
        let ghost m2 = self.memory;
        self.memory.write_byte(p, off + 2, b2);
        let ghost m3 = self.memory;
        self.memory.write_byte(p, off + 3, b3);
        proof {
            lemma_four_bytes(&m0, &m1, &m2, &m3, &self.memory, p, off as int, b0, b1, b2, b3);
            lemma_task_frame_written(&k0, self, pid as int, p);
        }
        Some(p)
    }
}

impl Kernel {
    /// The frame that holds page `vpn` of task `pid`, if the task has not
    /// ended and the page lies in a framed area of its address space.
    pub open spec fn page_frame(&self, pid: int, vpn: VirtPageNum) -> Option<PhysPageNum> {
        let space = self.task_list()[pid].memory_set;
        if 0 <= pid < self.task_list().len() && self.status(pid) != TaskStatus::Exited && exists|
            i: int,
        |
            0 <= i < space.area_list().len() && #[trigger] space.area_list()[i].framed().contains_key(
                vpn.0,
            ) && space.area_list()[i].kind() == crate::memory_set::MapType::Framed {
            match space.maps(&self.mem(), vpn) {
                Some(e) => Some(e.spec_ppn()),
                None => None,
            }
        } else {
            None
        }
    }

    /// The number of areas of the address space of task `pid`; 0 if there
    /// is no such task.
    #[verifier::spinoff_prover]
    pub fn task_area_count(&self, pid: usize) -> (n: usize)
        ensures
            n == if pid < self.task_list().len() {
                self.task_list()[pid as int].memory_set.area_list().len()
            } else {
                0
            },
    {
        if pid < self.tasks.len() {
            self.tasks[pid].memory_set.area_count()
        } else {
            0
        }
    }

    /// The first page of area `i` of the address space of task `pid` and
    /// the page just past its last one; `None` if there is no such area.
    #[verifier::spinoff_prover]
    pub fn task_area_bounds(&self, pid: usize, i: usize) -> (r: Option<(VirtPageNum, VirtPageNum)>)
        ensures
            r.is_some() <==> pid < self.task_list().len() && i
                < self.task_list()[pid as int].memory_set.area_list().len(),
            r matches Some(b) ==> b.0
                == self.task_list()[pid as int].memory_set.area_list()[i as int].range().start() && b.1
                == self.task_list()[pid as int].memory_set.area_list()[i as int].range().end(),
    {
        if pid < self.tasks.len() {
            self.tasks[pid].memory_set.area_bounds(i)
        } else {
            None
        }
    }

    /// The frame that holds page `vpn` of task `pid`; see
    /// [`Self::page_frame`].
    #[verifier::spinoff_prover]
    pub fn frame_of_page(&self, pid: usize, vpn: VirtPageNum) -> (r: Option<PhysPageNum>)
        requires
            self.inv(),
        ensures
            r == self.page_frame(pid as int, vpn),
            r matches Some(p) ==> self.mem().contains(p)
                && self.task_list()[pid as int].memory_set.data_set().contains(p),
    {
        if pid >= self.tasks.len() {
            return None;
        }
        match self.tasks[pid].task_status {
            TaskStatus::Exited => {
                return None;
            },
            _ => {},
        }
        let r = self.tasks[pid].memory_set.frame_of(vpn, MapPermission { bits: 0 });
        proof {
            lemma_task_of(self, pid as int);
            let ms = &self.task_list()[pid as int].memory_set;
            assert(forall|b: u8| #![auto] b & 0u8 == 0u8) by (bit_vector);
            if let Some(p) = r {
                let i = choose|i: int|
                    0 <= i < ms.area_list().len() && #[trigger] ms.area_list()[i].framed().contains_key(
                        vpn.0,
                    ) && ms.area_list()[i].framed()[vpn.0] == p && ms.area_list()[i].kind()
                        == crate::memory_set::MapType::Framed;
                lemma_frame_of(ms, &self.mem(), &self.frames(), i, vpn.0);
            }
        }
        r
    }

    /// Takes in page `vpn` of task `pid` as the task left it: writes the 512
    /// words `words` to the frame that holds the page. Nothing is written,
    /// and `false` is returned, if there are not 512 words or the task has
    /// no frame for the page.
    #[verifier::spinoff_prover]
    pub fn store_user_page(&mut self, pid: usize, vpn: VirtPageNum, words: &Vec<u64>) -> (r: bool)
        requires
            old(self).inv(),
        ensures
            final(self).inv(),
            old(self).tasks_kept_but_memory(final(self)),
            final(self).mem().same_range(&old(self).mem()),
            r == (words@.len() == 512 && old(self).page_frame(pid as int, vpn).is_some()),
            !r ==> *final(self) == *old(self),
            r ==> {
                let p = old(self).page_frame(pid as int, vpn).unwrap();
                &&& forall|i: int| 0 <= i < 512 ==> #[trigger] final(self).mem().word(p, i) == words@[i]
                &&& forall|q: PhysPageNum|
                    old(self).mem().contains(q) && q != p ==> #[trigger] final(self).mem().same_page(
                        &old(self).mem(),
                        q,
                    )
            },
    {
        let ghost k0 = *self;
        if words.len() != 512 {
            return false;
        }
        let p = match self.frame_of_page(pid, vpn) {
            Some(p) => p,
            None => {
                return false;
            },
        };
        let mut i: usize = 0;
        while i < 512
            invariant
                i <= 512,
                words@.len() == 512,
                k0.mem().contains(p),
                self.frames() == k0.frames(),
                self.space() == k0.space(),
                self.environment() == k0.environment(),
                self.task_list() == k0.task_list(),
                self.ready() == k0.ready(),
                self.running() == k0.running(),
                self.mem().wf(),
                self.mem().same_range(&k0.mem()),
                forall|j: int| 0 <= j < i ==> #[trigger] self.mem().word(p, j) == words@[j],
                forall|q: PhysPageNum, j: int|
                    0 <= j < 512 && k0.mem().contains(q) && q != p ==> #[trigger] self.mem().word(q, j)
                        == k0.mem().word(q, j),
            decreases 512 - i,
        {
            self.memory.write_word(p, i, words[i]);
            i += 1;
        }
        proof {
            lemma_task_frame_written(&k0, self, pid as int, p);
        }
        true
    }
}

/// Four bytes written in a row to one frame change these four bytes and
/// nothing else.
#[verifier::spinoff_prover]
proof fn lemma_four_bytes(
    m0: &PhysMemory,
    m1: &PhysMemory,
    m2: &PhysMemory,
    m3: &PhysMemory,
    m4: &PhysMemory,
    p: PhysPageNum,
    off: int,
    b0: u8,
    b1: u8,
    b2: u8,
    b3: u8,
)
    requires
        0 <= off,
        off + 4 <= 4096,
        m0.contains(p),
        m1.same_range(m0),
        m2.same_range(m0),
        m3.same_range(m0),
        m4.same_range(m0),
        crate::memory::byte_written(m0, m1, p, off, b0),
        crate::memory::byte_written(m1, m2, p, off + 1, b1),
        crate::memory::byte_written(m2, m3, p, off + 2, b2),
        crate::memory::byte_written(m3, m4, p, off + 3, b3),
    ensures
        m4.byte(p, off) == b0,
        m4.byte(p, off + 1) == b1,
        m4.byte(p, off + 2) == b2,
        m4.byte(p, off + 3) == b3,
        forall|o: int|
            0 <= o < 4096 && !(off <= o < off + 4) ==> #[trigger] m4.byte(p, o) == m0.byte(p, o),
        forall|q: PhysPageNum| m0.contains(q) && q != p ==> #[trigger] m4.same_page(m0, q),
{
    reveal(crate::memory::byte_written);
    assert forall|o: int| 0 <= o < 4096 && !(off <= o < off + 4) implies #[trigger] m4.byte(p, o)
        == m0.byte(p, o) by {
        assert(m1.byte(p, o) == m0.byte(p, o));
        assert(m2.byte(p, o) == m1.byte(p, o));
        assert(m3.byte(p, o) == m2.byte(p, o));
        assert(m4.byte(p, o) == m3.byte(p, o));
    }
    assert forall|q: PhysPageNum| m0.contains(q) && q != p implies #[trigger] m4.same_page(
        m0,
        q,
    ) by {
        assert forall|i: int| 0 <= i < 512 implies #[trigger] m4.word(q, i) == m0.word(q, i) by {
            assert(m1.word(q, i) == m0.word(q, i));
            assert(m2.word(q, i) == m1.word(q, i));
            assert(m3.word(q, i) == m2.word(q, i));
            assert(m4.word(q, i) == m3.word(q, i));
        }
    }
    assert(m2.byte(p, off) == m1.byte(p, off));
    assert(m3.byte(p, off) == m2.byte(p, off));
    assert(m4.byte(p, off) == m3.byte(p, off));
    assert(m3.byte(p, off + 1) == m2.byte(p, off + 1));
    assert(m4.byte(p, off + 1) == m3.byte(p, off + 1));
    assert(m4.byte(p, off + 2) == m3.byte(p, off + 2));
}

/// A frame of an area that can be written in user mode is not the frame of
/// the trap context, whose area cannot be accessed in user mode.
#[verifier::spinoff_prover]
proof fn lemma_not_trap_frame(k: &Kernel, pid: int, i: int, v: u64)
    requires
        k.inv(),
        0 <= pid < k.task_list().len(),
        k.status(pid) != TaskStatus::Exited,
        0 <= i < k.task_list()[pid].memory_set.area_list().len(),
        k.task_list()[pid].memory_set.area_list()[i].framed().contains_key(v),
        k.task_list()[pid].memory_set.area_list()[i].perm().bits & 0x14u8 == 0x14u8,
    ensures
        k.task_list()[pid].memory_set.area_list()[i].framed()[v] != k.trap_frame(pid),
{
    lemma_task_of(k, pid);
    let ms = &k.task_list()[pid].memory_set;
    let last = ms.area_list().len() - 1;
    let area = ms.area_list()[i];
    let p = area.framed()[v];
    assert(0x06u8 & 0x14u8 != 0x14u8) by (bit_vector);
    if p == k.trap_frame(pid) {
        assert(i != last);
        assert(area.owns(p));
        assert(ms.area_list()[last].owns(p));
        crate::memory_set::lemma_areas_share_no_frame(ms, &k.mem(), &k.frames(), i, last, p);
    }
}

impl Kernel {
    /// Register `i` of the trap context of task `pid`, as it lies in memory.
    pub open spec fn reg(&self, pid: int, i: int) -> u64 {
        self.mem().word(self.trap_frame(pid), i)
    }

    /// The address at which task `pid` resumes, as its trap context says.
    pub open spec fn sepc(&self, pid: int) -> u64 {
        self.mem().word(self.trap_frame(pid), 33)
    }

    /// The address after the instruction at which task `pid` trapped.
    pub open spec fn next_pc(&self, pid: int) -> u64 {
        ((self.sepc(pid) + 4) % 0x1_0000_0000_0000_0000) as u64
    }

    /// Task `i` of `after` is task `i` of `self` with the state `status` and
    /// the exit code `code`; every other task, the allocator, the kernel's
    /// address space and the environment are the same in both.
    pub open spec fn task_moved(
        &self,
        after: &Kernel,
        i: int,
        status: TaskStatus,
        code: i32,
    ) -> bool {
        &&& after.frames() == self.frames()
        &&& after.space() == self.space()
        &&& after.environment() == self.environment()
        &&& after.task_list().len() == self.task_list().len()
        &&& 0 <= i < self.task_list().len()
        &&& forall|j: int|
            0 <= j < self.task_list().len() && j != i ==> #[trigger] after.task_list()[j]
                == self.task_list()[j]
        &&& after.task_list()[i].task_status == status
        &&& after.task_list()[i].exit_code == code
        &&& after.task_list()[i].task_cx == self.task_list()[i].task_cx
        &&& after.task_list()[i].memory_set == self.task_list()[i].memory_set
        &&& after.task_list()[i].trap_cx_ppn == self.task_list()[i].trap_cx_ppn
        &&& after.task_list()[i].base_size == self.task_list()[i].base_size
        &&& after.task_list()[i].pid == self.task_list()[i].pid
    }

    /// The frame to which the page of the address `ptr` is mapped in the
    /// address space of task `pid`, if the page lies in a framed area that
    /// can be written in user mode and `ptr` is a multiple of four.
    pub open spec fn writable_frame(&self, pid: int, ptr: u64) -> Option<PhysPageNum> {
        let space = self.task_list()[pid].memory_set;
        if ptr % 4 == 0 && ptr < crate::address::VA_LIMIT && exists|i: int|
            0 <= i < space.area_list().len() && #[trigger] space.area_list()[i].framed().contains_key(
                ptr / 4096,
            ) && space.area_list()[i].perm().bits & 0x14u8 == 0x14u8 && space.area_list()[i].kind()
                == crate::memory_set::MapType::Framed {
            match space.maps(&self.mem(), VirtPageNum(ptr / 4096)) {
                Some(e) => Some(e.spec_ppn()),
                None => None,
            }
        } else {
            None
        }
    }

    /// What the system call `exit` of the running task `pid` does.
    pub open spec fn exit_post(&self, after: &Kernel, pid: int, r: TrapOutcome) -> bool {
        let code = self.reg(pid, 10) as i32;
        &&& r == TrapOutcome::Exited(pid as usize, code)
        &&& self.task_ended(after, pid, code)
        &&& after.ready() == self.ready()
        &&& after.running().is_none()
    }

    /// What the system call `yield` of the running task `pid` does.
    pub open spec fn yield_post(&self, after: &Kernel, pid: int, r: TrapOutcome) -> bool {
        &&& r == TrapOutcome::Yielded(pid as usize)
        &&& self.context_updated(after, pid, self.next_pc(pid), Some(0), None)
        &&& self.task_moved(after, pid, TaskStatus::Ready, self.task_list()[pid].exit_code)
        &&& after.ready() == self.ready().push(pid as usize)
        &&& after.running().is_none()
    }

    /// What the system call `write` of the running task `pid` does.
    pub open spec fn write_post(&self, after: &Kernel, pid: int, r: TrapOutcome) -> bool {
        let fd = self.reg(pid, 10);
        let buf = self.reg(pid, 11);
        let len = self.reg(pid, 12);
        &&& self.tasks_kept_but_memory(after)
        &&& match self.user_bytes(pid, buf, len) {
            Some(bytes) => if fd == FD_STDOUT {
                &&& r matches TrapOutcome::Output(out) && out@ == bytes
                &&& self.context_updated(after, pid, self.next_pc(pid), Some(len), None)
            } else {
                &&& r == TrapOutcome::Resume
                &&& self.context_updated(after, pid, self.next_pc(pid), Some(FAILED), None)
            },
            None => {
                &&& r == TrapOutcome::Resume
                &&& self.context_updated(after, pid, self.next_pc(pid), Some(FAILED), None)
            },
        }
    }

    /// What the system call `waitpid` of the running task `pid` does.
    pub open spec fn waitpid_post(&self, after: &Kernel, pid: int, r: TrapOutcome) -> bool {
        let target = self.reg(pid, 10);
        let ptr = self.reg(pid, 11);
        &&& r == TrapOutcome::Resume
        &&& self.tasks_kept_but_memory(after)
        &&& if target >= self.task_list().len() || target == pid {
            self.context_updated(after, pid, self.next_pc(pid), Some(FAILED), None)
        } else if self.status(target as int) != TaskStatus::Exited {
            self.context_updated(after, pid, self.next_pc(pid), Some(STILL_RUNNING), None)
        } else {
            match self.writable_frame(pid, ptr) {
                Some(p) => {
                    &&& self.context_updated(after, pid, self.next_pc(pid), Some(target), Some(p))
                    &&& p != self.trap_frame(pid)
                    &&& forall|k: int|
                        0 <= k < 4 ==> #[trigger] after.mem().byte(p, ptr % 4096 + k) == code_byte(
                            self.task_list()[target as int].exit_code,
                            k,
                        )
                    &&& forall|o: int|
                        0 <= o < 4096 && !(ptr % 4096 <= o < ptr % 4096 + 4) ==> #[trigger] after.mem().byte(
                            p,
                            o,
                        ) == self.mem().byte(p, o)
                },
                None => self.context_updated(after, pid, self.next_pc(pid), Some(FAILED), None),
            }
        }
    }

    /// What a system call of the running task `pid` that the kernel leaves
    /// to the code around it does.
    pub open spec fn delegated_post(&self, after: &Kernel, pid: int, r: TrapOutcome) -> bool {
        &&& r matches TrapOutcome::Delegated { id, args } && id == self.reg(pid, 17) && args@
            == seq![self.reg(pid, 10), self.reg(pid, 11), self.reg(pid, 12)]
        &&& self.tasks_kept_but_memory(after)
        &&& self.context_updated(after, pid, self.next_pc(pid), None, None)
    }

    /// What the kernel does about a trap with the cause register `scause`
    /// and the trap value `stval` at the time `time`.
    pub open spec fn trap_post(
        &self,
        after: &Kernel,
        scause: u64,
        stval: u64,
        time: u64,
        r: TrapOutcome,
    ) -> bool {
        let cause = trap_of(scause);
        let task = self.running().unwrap();
        let pid = task as int;
        if cause == Trap::Exception(Exception::UserEnvCall) {
            let id = self.reg(pid, 17);
            if id == SYSCALL_EXIT {
                self.exit_post(after, pid, r)
            } else if id == SYSCALL_YIELD {
                self.yield_post(after, pid, r)
            } else if id == SYSCALL_WRITE {
                self.write_post(after, pid, r)
            } else if id == SYSCALL_WAITPID {
                self.waitpid_post(after, pid, r)
            } else {
                self.delegated_post(after, pid, r)
            }
        } else if is_access_fault(cause) || cause == Trap::Exception(
            Exception::IllegalInstruction,
        ) {
            let code = if is_access_fault(cause) {
                EXIT_BAD_ACCESS
            } else {
                EXIT_ILLEGAL_INSTRUCTION
            };
            &&& r == (TrapOutcome::Killed {
                task,
                code,
                cause,
                bad_addr: stval,
                bad_instruction: self.sepc(pid),
            })
            &&& self.task_ended(after, pid, code)
            &&& after.ready() == self.ready()
            &&& after.running().is_none()
        } else {
            &&& r == (TrapOutcome::Preempted {
                task,
                deadline: ((time + TICKS_PER_SLICE) % 0x1_0000_0000_0000_0000) as u64,
            })
            &&& self.task_updated(
                after,
                pid,
                TaskStatus::Ready,
                self.task_list()[pid].exit_code,
            )
            &&& after.ready() == self.ready().push(task)
            &&& after.running().is_none()
        }
    }

    /// Loads the trap context of task `pid` and moves its resume address
    /// past the instruction that trapped.
    #[verifier::spinoff_prover]
    fn advanced_context(&self, pid: usize) -> (cx: TrapContext)
        requires
            self.inv(),
            pid < self.task_list().len(),
        ensures
            cx.sepc == self.next_pc(pid as int),
            forall|i: int| 0 <= i < 37 && i != 33 ==> #[trigger] cx.word(i) == self.reg(pid as int, i),
    {
        proof {
            lemma_task_of(self, pid as int);
        }
        let mut cx = self.tasks[pid].get_trap_cx(&self.memory);
        let ghost loaded = cx;
        cx.sepc = cx.sepc.wrapping_add(4);
        proof {
            assert(self.mem().word(self.trap_frame(pid as int), 33) == loaded.word(33));
            assert forall|i: int| 0 <= i < 37 && i != 33 implies #[trigger] cx.word(i) == self.reg(
        pid as int,
        i,
            ) by {
        assert(self.mem().word(self.trap_frame(pid as int), i) == loaded.word(i));
            }
        }
        cx
    }

    /// Writes `cx`, in which register 10 may have been set to `a0`, as the
    /// trap context of task `pid`, whose context `cx` was loaded and
    /// advanced from.
    #[verifier::spinoff_prover]
    fn finish_context(
        &mut self,
        pid: usize,
        cx: &TrapContext,
        Ghost(start): Ghost<Kernel>,
        Ghost(a0): Ghost<Option<u64>>,
        Ghost(written): Ghost<Option<PhysPageNum>>,
    )
        requires
            old(self).inv(),
            start.inv(),
            old(self).running() == Some(pid),
            start.tasks_kept_but_memory(old(self)),
            old(self).mem().same_range(&start.mem()),
            old(self).mem().same_page(&start.mem(), start.trap_frame(pid as int)),
            forall|q: PhysPageNum|
        start.mem().contains(q) && Some(q) != written ==> #[trigger] old(
            self,
        ).mem().same_page(&start.mem(), q),
            cx.sepc == start.next_pc(pid as int),
            forall|i: int|
        0 <= i < 37 && i != 33 && i != 10 ==> #[trigger] cx.word(i) == start.reg(
            pid as int,
            i,
        ),
            cx.word(10) == match a0 {
        Some(value) => value,
        None => start.reg(pid as int, 10),
            },
        ensures
            final(self).inv(),
            start.tasks_kept_but_memory(final(self)),
            old(self).tasks_kept_but_memory(final(self)),
            start.context_updated(final(self), pid as int, start.next_pc(pid as int), a0, written),
            forall|q: PhysPageNum|
        old(self).mem().contains(q) && q != start.trap_frame(pid as int)
            ==> #[trigger] final(self).mem().same_page(&old(self).mem(), q),
    {
        let ghost k0 = *self;
        self.store_trap_cx(pid, cx);
        proof {
            let frame = start.trap_frame(pid as int);
            let m0 = &start.mem();
            let m1 = &k0.mem();
            let m2 = &self.mem();
            assert forall|i: int| 0 <= i < 512 && i != 33 && i != 10 implies #[trigger] m2.word(
        frame,
        i,
            ) == m0.word(frame, i) by {
        if i < 37 {
            assert(m2.word(frame, i) == cx.word(i));
        } else {
            assert(m2.word(frame, i) == m1.word(frame, i));
            assert(m1.word(frame, i) == m0.word(frame, i));
        }
            }
            assert(m2.word(frame, 33) == cx.word(33));
            assert(m2.word(frame, 10) == cx.word(10));
            assert forall|q: PhysPageNum|
        m0.contains(q) && q != frame && Some(q) != written implies #[trigger] m2.same_page(
        m0,
        q,
            ) by {
        assert(m2.same_page(m1, q));
        assert(m1.same_page(m0, q));
        assert forall|i: int| 0 <= i < 512 implies #[trigger] m2.word(q, i) == m0.word(
            q,
            i,
        ) by {
            assert(m2.word(q, i) == m1.word(q, i));
        }
            }
        }
    }
}

impl Kernel {
    /// The system call `exit` of the running task `pid`.
    #[verifier::spinoff_prover]
    fn sys_exit(&mut self, pid: usize) -> (r: TrapOutcome)
        requires
            old(self).inv(),
            old(self).running() == Some(pid),
        ensures
            final(self).inv(),
            old(self).exit_post(final(self), pid as int, r),
    {
        proof {
            lemma_task_of(self, pid as int);
        }
        let cx = self.tasks[pid].get_trap_cx(&self.memory);
        let code = cx.x[10] as i32;
        proof {
            assert(cx.word(10) == cx.x@[10]);
        }
        self.exit_current_and_run_next(code);
        TrapOutcome::Exited(pid, code)
    }

    /// The system call `yield` of the running task `pid`.
    #[verifier::spinoff_prover]
    fn sys_yield(&mut self, pid: usize) -> (r: TrapOutcome)
        requires
            old(self).inv(),
            old(self).running() == Some(pid),
        ensures
            final(self).inv(),
            old(self).yield_post(final(self), pid as int, r),
    {
        let ghost k0 = *self;
        let mut cx = self.advanced_context(pid);
        let ghost before = cx;
        cx.x[10] = 0;
        proof {
            assert forall|i: int| 0 <= i < 37 && i != 10 implies #[trigger] cx.word(i)
        == before.word(i) by {}
        }
        self.finish_context(pid, &cx, Ghost(k0), Ghost(Some(0)), Ghost(None));
        let ghost k1 = *self;
        self.suspend_current_and_run_next();
        proof {
            lemma_moved(
        &k0,
        &k1,
        self,
        pid as int,
        TaskStatus::Ready,
        k0.task_list()[pid as int].exit_code,
        Some(0),
        None,
            );
        }
        TrapOutcome::Yielded(pid)
    }

    /// The system call `write` of the running task `pid`.
    #[verifier::spinoff_prover]
    fn sys_write(&mut self, pid: usize) -> (r: TrapOutcome)
        requires
            old(self).inv(),
            old(self).running() == Some(pid),
        ensures
            final(self).inv(),
            old(self).write_post(final(self), pid as int, r),
    {
        let ghost k0 = *self;
        let mut cx = self.advanced_context(pid);
        let ghost before = cx;
        let fd = cx.x[10];
        let buf = cx.x[11];
        let len = cx.x[12];
        proof {
            assert(before.word(10) == fd && before.word(11) == buf && before.word(12) == len);
        }
        let bytes = self.read_user(pid, buf, len);
        match bytes {
            Some(out) => {
        if fd == FD_STDOUT {
            cx.x[10] = len;
            proof {
                assert forall|i: int| 0 <= i < 37 && i != 10 implies #[trigger] cx.word(i)
                    == before.word(i) by {}
            }
            self.finish_context(pid, &cx, Ghost(k0), Ghost(Some(len)), Ghost(None));
            TrapOutcome::Output(out)
        } else {
            cx.x[10] = FAILED;
            proof {
                assert forall|i: int| 0 <= i < 37 && i != 10 implies #[trigger] cx.word(i)
                    == before.word(i) by {}
            }
            self.finish_context(pid, &cx, Ghost(k0), Ghost(Some(FAILED)), Ghost(None));
            TrapOutcome::Resume
        }
            },
            None => {
        cx.x[10] = FAILED;
        proof {
            assert forall|i: int| 0 <= i < 37 && i != 10 implies #[trigger] cx.word(i)
                == before.word(i) by {}
        }
        self.finish_context(pid, &cx, Ghost(k0), Ghost(Some(FAILED)), Ghost(None));
        TrapOutcome::Resume
            },
        }
    }

    /// The system call `waitpid` of the running task `pid`.
    #[verifier::spinoff_prover]
    fn sys_waitpid(&mut self, pid: usize) -> (r: TrapOutcome)
        requires
            old(self).inv(),
            old(self).running() == Some(pid),
        ensures
            final(self).inv(),
            old(self).waitpid_post(final(self), pid as int, r),
    {
        let ghost k0 = *self;
        let mut cx = self.advanced_context(pid);
        let ghost before = cx;
        let target = cx.x[10];
        let ptr = cx.x[11];
        proof {
            assert(before.word(10) == target && before.word(11) == ptr);
        }
        let mut result: u64 = FAILED;
        let mut written: Option<PhysPageNum> = None;
        if target < self.tasks.len() as u64 && target != pid as u64 {
            match self.exit_code_of(target as usize) {
        None => {
            result = STILL_RUNNING;
        },
        Some(code) => {
            written = self.write_user_code(pid, ptr, code);
            if written.is_some() {
                result = target;
            }
        },
            }
        }
        cx.x[10] = result;
        let ghost kw = *self;
        proof {
            assert forall|i: int| 0 <= i < 37 && i != 10 implies #[trigger] cx.word(i)
        == before.word(i) by {}
            lemma_task_of(&k0, pid as int);
            assert(k0.mem().contains(k0.trap_frame(pid as int)));
            if let Some(p) = written {
        assert(kw.mem().same_page(&k0.mem(), k0.trap_frame(pid as int)));
            }
        }
        self.finish_context(pid, &cx, Ghost(k0), Ghost(Some(result)), Ghost(written));
        proof {
            if let Some(p) = written {
        let m1 = &self.mem();
        assert(kw.mem().contains(p));
        assert(m1.same_page(&kw.mem(), p));
        assert forall|o: int| 0 <= o < 4096 implies #[trigger] m1.byte(p, o)
            == kw.mem().byte(p, o) by {
            assert(m1.word(p, o / 8) == kw.mem().word(p, o / 8));
        }
        assert forall|j: int| 0 <= j < 4 implies #[trigger] m1.byte(p, ptr % 4096 + j)
            == code_byte(k0.task_list()[target as int].exit_code, j) by {
            assert(m1.byte(p, ptr % 4096 + j) == kw.mem().byte(p, ptr % 4096 + j));
        }
            }
        }
        TrapOutcome::Resume
    }

    /// A system call of the running task `pid` that the kernel leaves to the
    /// code around it.
    #[verifier::spinoff_prover]
    fn delegate(&mut self, pid: usize) -> (r: TrapOutcome)
        requires
            old(self).inv(),
            old(self).running() == Some(pid),
        ensures
            final(self).inv(),
            old(self).delegated_post(final(self), pid as int, r),
    {
        let ghost k0 = *self;
        let cx = self.advanced_context(pid);
        let id = cx.x[17];
        let args = [cx.x[10], cx.x[11], cx.x[12]];
        proof {
            assert(cx.word(17) == id && cx.word(10) == args@[0] && cx.word(11) == args@[1]
        && cx.word(12) == args@[2]);
            assert(args@ =~= seq![k0.reg(pid as int, 10), k0.reg(pid as int, 11), k0.reg(
        pid as int,
        12,
            )]);
        }
        self.finish_context(pid, &cx, Ghost(k0), Ghost(None), Ghost(None));
        TrapOutcome::Delegated { id, args }
    }

    /// Hands the result of a system call that was left to the code around
    /// the kernel to the running task: sets the register for results in its
    /// trap context. Nothing happens if no task runs.
    #[verifier::spinoff_prover]
    pub fn finish_syscall(&mut self, result: u64)
        requires
            old(self).inv(),
        ensures
            final(self).inv(),
            old(self).tasks_kept_but_memory(final(self)),
            match old(self).running() {
        Some(pid) => old(self).context_updated(
            final(self),
            pid as int,
            old(self).sepc(pid as int),
            Some(result),
            None,
        ),
        None => *final(self) == *old(self),
            },
    {
        let ghost k0 = *self;
        match self.processor.current() {
            None => {},
            Some(pid) => {
        proof {
            lemma_task_of(&k0, pid as int);
        }
        let mut cx = self.tasks[pid].get_trap_cx(&self.memory);
        let ghost before = cx;
        cx.x[10] = result;
        proof {
            assert forall|i: int| 0 <= i < 37 && i != 10 implies #[trigger] cx.word(i)
                == k0.reg(pid as int, i) by {
                assert(cx.word(i) == before.word(i));
                assert(k0.mem().word(k0.trap_frame(pid as int), i) == before.word(i));
            }
        }
        self.store_trap_cx(pid, &cx);
        proof {
            let frame = k0.trap_frame(pid as int);
            assert forall|i: int| 0 <= i < 512 && i != 33 && i != 10 implies #[trigger] self.mem().word(
                frame,
                i,
            ) == k0.mem().word(frame, i) by {
                if i < 37 {
                    assert(self.mem().word(frame, i) == cx.word(i));
                }
            }
            assert(self.mem().word(frame, 33) == cx.word(33));
            assert(self.mem().word(frame, 10) == cx.word(10));
        }
            },
        }
    }

    /// A task runs, and the kernel handles a trap of the cause that the
    /// cause register `scause` names.
    pub open spec fn handles(&self, scause: u64) -> bool {
        self.running().is_some() && handled(trap_of(scause))
    }

    /// Whether [`Self::trap_handler`] can take a trap with the cause
    /// register `scause` now. If not, the trap came from the kernel itself
    /// or has a cause that the kernel does not handle, and the kernel
    /// cannot go on.
    #[verifier::spinoff_prover]
    pub fn can_handle(&self, scause: u64) -> (r: bool)
        ensures
            r == self.handles(scause),
    {
        self.processor.current().is_some() && is_handled(classify(scause))
    }

    /// Decides what the kernel does about a trap: `scause` and `stval` are
    /// the cause register and the trap value as the hardware set them, and
    /// `time` is the time now.
    ///
    /// A system call of the running task is served, with the task resuming
    /// after the calling instruction; a task that cannot reach memory or
    /// runs an illegal instruction is ended, with a code that says which;
    /// on a timer interrupt the task gives way and the next deadline is
    /// handed out. A task must run, and the cause must be one of these:
    /// [`Self::can_handle`] tells.
    #[verifier::spinoff_prover]
    pub fn trap_handler(&mut self, scause: u64, stval: u64, time: u64) -> (r: TrapOutcome)
        requires
            old(self).inv(),
            old(self).handles(scause),
        ensures
            final(self).inv(),
            old(self).trap_post(final(self), scause, stval, time, r),
    {
        let cause = classify(scause);
        let pid = self.processor.current().unwrap();
        proof {
            lemma_task_of(self, pid as int);
        }
        match cause {
            Trap::Exception(Exception::UserEnvCall) => {
                let cx = self.tasks[pid].get_trap_cx(&self.memory);
                let id = cx.x[17];
                proof {
                    assert(cx.word(17) == id);
                }
                if id == SYSCALL_EXIT {
                    self.sys_exit(pid)
                } else if id == SYSCALL_YIELD {
                    self.sys_yield(pid)
                } else if id == SYSCALL_WRITE {
                    self.sys_write(pid)
                } else if id == SYSCALL_WAITPID {
                    self.sys_waitpid(pid)
                } else {
                    self.delegate(pid)
                }
            },
            Trap::Exception(Exception::StoreFault)
            | Trap::Exception(Exception::StorePageFault)
            | Trap::Exception(Exception::InstructionFault)
            | Trap::Exception(Exception::InstructionPageFault)
            | Trap::Exception(Exception::LoadFault)
            | Trap::Exception(Exception::LoadPageFault) => {
                let cx = self.tasks[pid].get_trap_cx(&self.memory);
                proof {
                    assert(cx.word(33) == cx.sepc);
                }
                self.exit_current_and_run_next(EXIT_BAD_ACCESS);
                TrapOutcome::Killed {
                    task: pid,
                    code: EXIT_BAD_ACCESS,
                    cause,
                    bad_addr: stval,
                    bad_instruction: cx.sepc,
                }
            },
            Trap::Exception(Exception::IllegalInstruction) => {
                let cx = self.tasks[pid].get_trap_cx(&self.memory);
                proof {
                    assert(cx.word(33) == cx.sepc);
                }
                self.exit_current_and_run_next(EXIT_ILLEGAL_INSTRUCTION);
                TrapOutcome::Killed {
                    task: pid,
                    code: EXIT_ILLEGAL_INSTRUCTION,
                    cause,
                    bad_addr: stval,
                    bad_instruction: cx.sepc,
                }
            },
            Trap::Interrupt(Interrupt::SupervisorTimer) => {
                let deadline = time.wrapping_add(TICKS_PER_SLICE);
                self.suspend_current_and_run_next();
                TrapOutcome::Preempted { task: pid, deadline }
            },
            _ => vstd::pervasive::unreached(),
        }
    }
}

/// A task that left the processor after its trap context was written has
/// moved, and its context is as it was written.
#[verifier::spinoff_prover]
proof fn lemma_moved(
    k0: &Kernel,
    k1: &Kernel,
    k2: &Kernel,
    pid: int,
    status: TaskStatus,
    code: i32,
    a0: Option<u64>,
    written: Option<PhysPageNum>,
)
    requires
        k0.tasks_kept_but_memory(k1),
        k0.context_updated(k1, pid, k0.next_pc(pid), a0, written),
        k1.task_updated(k2, pid, status, code),
    ensures
        k0.task_moved(k2, pid, status, code),
        k0.context_updated(k2, pid, k0.next_pc(pid), a0, written),
{
}

} // verus!
