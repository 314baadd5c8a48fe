//! The control block of a task.

use crate::address::{PhysPageNum, VirtAddr, VirtPageNum};
use crate::config::{kernel_stack_position, kernel_stack_top, TRAP_CONTEXT};
use crate::frame_allocator::{others_untouched, StackFrameAllocator};
use crate::image::{image_of, SegmentHeader};
use crate::memory::PhysMemory;
use crate::memory_set::{
    filled, framed_shape, image_shapes, lemma_area_page, lemma_data_write, lemma_space_survives,
    lemma_space_walkable, segment_bytes, stack_base, trampoline_entry, trampoline_frame,
    trampoline_page, AreaShape, LoadError, MapPermission, MapType, MemorySet,
};
use crate::page_table::MapError;
use crate::task::context::TaskContext;
use crate::trap::context::{user_status, TrapContext};
use vstd::prelude::*;

verus! {

/// What a task is doing.
#[derive(Copy, Clone, Debug, PartialEq, Eq, Structural)]
pub enum TaskStatus {
    /// The task waits for the processor.
    Ready,
    /// The task runs.
    Running,
    /// The task has ended and never runs again.
    Exited,
}

/// What the kernel has to be told about the machine and about itself to
/// set up a task.
#[derive(Copy, Clone, Debug)]
pub struct KernelEnv {
    /// The physical address of the trampoline code.
    pub strampoline: u64,
    /// The address of the trap handler.
    pub trap_handler: u64,
    /// The address of the routine that returns to user mode.
    pub trap_return: u64,
    /// The status register as it is read when a task is set up.
    pub sstatus: u64,
}

/// The largest admission index for which a kernel stack fits below the
/// trampoline page.
pub const MAX_TASK_ID: u64 = 0x2aa_aaa9;

/// The number of the page of the trap context in every address space.
pub const TRAP_CONTEXT_PAGE: u64 = 0x7ff_fffe;

/// The control block of a task: its state, its saved kernel context, its
/// address space and where its trap context lies.
pub struct TaskControlBlock {
    /// What the task is doing.
    pub task_status: TaskStatus,
    /// The kernel context from which the task resumes.
    pub task_cx: TaskContext,
    /// The address space of the task.
    pub memory_set: MemorySet,
    /// The frame that holds the trap context of the task.
    pub trap_cx_ppn: PhysPageNum,
    /// The top of the user stack: the size of the task's memory from
    /// address 0.
    pub base_size: u64,
    /// The admission index of the task, by which it is known.
    pub pid: u64,
    /// The code with which the task ended; 0 while it has not.
    pub exit_code: i32,
}

/// The shape of the area of the kernel stack of task `app_id` in the
/// kernel's address space.
pub open spec fn kernel_stack_shape(app_id: u64) -> AreaShape {
    AreaShape {
        start: 0x7ff_ffff - 3 * app_id - 2,
        end: 0x7ff_ffff - 3 * app_id,
        kind: MapType::Framed,
        perm: MapPermission { bits: 0x06 },
    }
}

/// Word `i` of the trap context of a task that has not run yet.
pub open spec fn initial_word(
    i: int,
    entry: u64,
    user_sp: u64,
    kernel_satp: u64,
    kernel_sp: u64,
    env: KernelEnv,
) -> u64 {
    if i == 2 {
        user_sp
    } else if 0 <= i < 32 {
        0
    } else if i == 32 {
        user_status(env.sstatus)
    } else if i == 33 {
        entry
    } else if i == 34 {
        kernel_satp
    } else if i == 35 {
        kernel_sp
    } else {
        env.trap_handler
    }
}

/// What is enough for [`TaskControlBlock::new`] to succeed: every segment
/// and the user stack fit, no two areas of the task run into each other or
/// into the trampoline page, no page of the kernel stack is mapped in the
/// kernel's address space, and as many frames are free as the areas of the
/// task and its kernel stack can take, and three more for the root and the
/// trampoline page.
#[verifier::opaque]
pub open spec fn task_fits(
    segs: Seq<SegmentHeader>,
    len: int,
    app_id: u64,
    ks0: &MemorySet,
    a0: &StackFrameAllocator,
    m0: &PhysMemory,
) -> bool {
    &&& crate::memory_set::image_fits(segs, len)
    &&& crate::memory_set::shapes_clear(image_shapes(segs))
    &&& forall|v: u64| #[trigger]
        kernel_stack_shape(app_id).covers(v) ==> ks0.maps(m0, VirtPageNum(v)).is_none()
    &&& a0@.free_count() >= 3 + crate::memory_set::total_frames(
        image_shapes(segs),
        (segs.len() + 2) as int,
    ) + kernel_stack_shape(app_id).frames()
}

/// Why [`TaskControlBlock::new`] refused the task, as the error `e` says:
/// the first segment that does not fit; the user stack, if every segment
/// fits and it does not; a page that was mapped already, only if two areas
/// of the task share a page, one holds the trampoline page, or a page of
/// the kernel stack is mapped in the kernel's address space; no frames,
/// only if fewer were free than the areas of the task and its kernel stack
/// can take, and three more.
#[verifier::opaque]
pub open spec fn task_refused(
    e: LoadError,
    segs: Seq<SegmentHeader>,
    len: int,
    app_id: u64,
    ks0: &MemorySet,
    a0: &StackFrameAllocator,
    m0: &PhysMemory,
) -> bool {
    match e {
        LoadError::Image(_) => false,
        LoadError::NoKernelStack => false,
        LoadError::BadSegment(i) => {
            &&& i < segs.len()
            &&& !crate::memory_set::segment_ok(segs[i as int], len)
            &&& forall|j: int| 0 <= j < i ==> #[trigger] crate::memory_set::segment_ok(segs[j], len)
        },
        LoadError::BadStack => {
            &&& forall|j: int|
                0 <= j < segs.len() ==> #[trigger] crate::memory_set::segment_ok(segs[j], len)
            &&& !crate::memory_set::stack_ok(segs)
        },
        LoadError::Mapping(cause) => {
            &&& cause != MapError::NotMapped
            &&& cause == MapError::AlreadyMapped ==> !crate::memory_set::shapes_clear(
                image_shapes(segs),
            ) || exists|v: u64| #[trigger]
                kernel_stack_shape(app_id).covers(v) && ks0.maps(m0, VirtPageNum(v)).is_some()
            &&& cause == MapError::OutOfFrames ==> a0@.free_count() < 3
                + crate::memory_set::total_frames(image_shapes(segs), (segs.len() + 2) as int)
                + kernel_stack_shape(app_id).frames()
        },
    }
}

/// A task that was refused did not meet what is enough for it to be set up.
#[verifier::spinoff_prover]
pub proof fn lemma_refused_does_not_fit(
    e: LoadError,
    segs: Seq<SegmentHeader>,
    len: int,
    app_id: u64,
    ks0: &MemorySet,
    a0: &StackFrameAllocator,
    m0: &PhysMemory,
)
    requires
        task_refused(e, segs, len, app_id, ks0, a0, m0),
    ensures
        !task_fits(segs, len, app_id, ks0, a0, m0),
{
    reveal(task_fits);
    reveal(task_refused);
    match e {
        LoadError::BadSegment(i) => {
            assert(!crate::memory_set::segment_ok(segs[i as int], len));
        },
        LoadError::Mapping(cause) => {
            if cause == MapError::AlreadyMapped && crate::memory_set::shapes_clear(
                image_shapes(segs),
            ) {
                let v = choose|v: u64| #[trigger]
                    kernel_stack_shape(app_id).covers(v) && ks0.maps(m0, VirtPageNum(v)).is_some();
                assert(kernel_stack_shape(app_id).covers(v));
            }
        },
        _ => {},
    }
}

/// What [`TaskControlBlock::new`] sets up for the task with the admission
/// index `app_id`, whose image has the loadable segments `segs` and the
/// entry point `entry` in a file that holds `data`: the task `task`, and
/// how the kernel's address space `ks1`, the allocator `a1` and the memory
/// `m1` came out of `ks0`, `a0` and `m0`.
pub open spec fn task_created(
    segs: Seq<SegmentHeader>,
    entry: u64,
    data: Seq<u8>,
    app_id: u64,
    env: KernelEnv,
    ks0: &MemorySet,
    a0: &StackFrameAllocator,
    m0: &PhysMemory,
    task: &TaskControlBlock,
    ks1: &MemorySet,
    a1: &StackFrameAllocator,
    m1: &PhysMemory,
) -> bool {
    let space = &task.memory_set;
    let n = segs.len() as int;
    &&& task.task_status == TaskStatus::Ready
    &&& task.pid == app_id
    &&& task.exit_code == 0
    &&& task.base_size == (stack_base(segs) + 3) * 4096
    &&& task.task_cx.ra() == env.trap_return
    &&& task.task_cx.sp() == kernel_stack_top(app_id as int)
    &&& task.task_cx.saved() == Seq::new(12, |i: int| 0u64)
    &&& task.inv(m1, a1)
    &&& ks1.inv(m1, a1)
    &&& forall|p: PhysPageNum| #[trigger] space.owns(p) ==> !ks1.owns(p) && !a0.is_allocated(p)
    &&& space.area_list().len() == n + 2
    &&& forall|i: int|
        0 <= i < n + 2 ==> (#[trigger] space.area_list()[i]).shape() == image_shapes(segs)[i]
    &&& space.maps(m1, trampoline_page()) == Some(
        trampoline_entry(trampoline_frame(env.strampoline)),
    )
    &&& forall|i: int|
        0 <= i < n ==> #[trigger] filled(space, m1, i, Some(segment_bytes(data, segs[i])))
    &&& filled(space, m1, n, None)
    &&& forall|i: int|
        0 <= i < 37 ==> #[trigger] m1.word(task.trap_cx_ppn, i) == initial_word(
            i,
            entry,
            task.base_size,
            ks1.table().spec_token(),
            kernel_stack_top(app_id as int) as u64,
            env,
        )
    &&& ks1.table().root() == ks0.table().root()
    &&& ks1.area_list().len() == ks0.area_list().len() + 1
    &&& ks1.area_list().last().shape() == kernel_stack_shape(app_id)
    &&& forall|i: int|
        0 <= i < ks0.area_list().len() ==> #[trigger] ks1.area_list()[i] == ks0.area_list()[i]
    &&& forall|v: VirtPageNum|
        v.is_valid() && !kernel_stack_shape(app_id).covers(v.0) ==> #[trigger] ks1.maps(m1, v)
            == ks0.maps(m0, v)
    &&& others_untouched(a0@, m0, a1@, m1, ks0.frame_set())
    &&& forall|p: PhysPageNum| #[trigger] m0.contains(p) <==> m1.contains(p)
}

impl TaskControlBlock {
    /// The task is whole: its address space is whole, and the frame of its
    /// trap context is the frame to which its address space maps the page
    /// of the trap context, which belongs to the last of its areas, an area
    /// that can be read and written, but not in user mode.
    pub open spec fn inv(&self, mem: &PhysMemory, allocator: &StackFrameAllocator) -> bool {
        &&& self.memory_set.inv(mem, allocator)
        &&& mem.contains(self.trap_cx_ppn)
        &&& self.memory_set.data_set().contains(self.trap_cx_ppn)
        &&& self.memory_set.maps(mem, VirtPageNum(TRAP_CONTEXT_PAGE)) matches Some(e)
            && e.spec_ppn() == self.trap_cx_ppn
        &&& self.memory_set.area_list().len() >= 1
        &&& self.memory_set.area_list().last().framed().contains_key(TRAP_CONTEXT_PAGE)
        &&& self.memory_set.area_list().last().framed()[TRAP_CONTEXT_PAGE] == self.trap_cx_ppn
        &&& self.memory_set.area_list().last().perm().bits == 0x06
    }

    /// The task has ended and its address space was taken down: it owns no
    /// frame any more.
    pub open spec fn gone(&self) -> bool {
        self.memory_set.is_hollow()
    }

    /// The trap context of the task, read from its frame.
    #[verifier::spinoff_prover]
    pub fn get_trap_cx(&self, mem: &PhysMemory) -> (cx: TrapContext)
        requires
            mem.wf(),
            mem.contains(self.trap_cx_ppn),
        ensures
            cx.stored_at(mem, self.trap_cx_ppn),
    {
        TrapContext::load(self.trap_cx_ppn, mem)
    }

    /// The word that names the page table of the task to the hardware.
    #[verifier::spinoff_prover]
    pub fn get_user_token(&self) -> (t: u64)
        ensures
            t == self.memory_set.table().spec_token(),
    {
        self.memory_set.token()
    }

    /// Sets up the task with the admission index `app_id` from the image in
    /// `elf_data`: builds its address space, maps its kernel stack in the
    /// kernel's address space, and writes its first trap context, with
    /// which it starts at the entry point of the image on its user stack.
    ///
    /// Fails if the image cannot be loaded or the kernel stack cannot be
    /// mapped; the kernel's address space stays whole, and every frame
    /// taken for the task is given back.
    #[verifier::spinoff_prover]
    #[verifier::rlimit(40)]
    pub fn new(
        elf_data: &[u8],
        app_id: u64,
        kernel_space: &mut MemorySet,
        env: &KernelEnv,
        allocator: &mut StackFrameAllocator,
        mem: &mut PhysMemory,
    ) -> (r: Result<TaskControlBlock, LoadError>)
        requires
            old(kernel_space).inv(old(mem), old(allocator)),
            app_id <= MAX_TASK_ID,
            (env.strampoline % crate::address::PA_LIMIT) % 4096 == 0,
        ensures
            final(kernel_space).inv(final(mem), final(allocator)),
            final(kernel_space).table().root() == old(kernel_space).table().root(),
            others_untouched(
                old(allocator)@,
                old(mem),
                final(allocator)@,
                final(mem),
                old(kernel_space).frame_set(),
            ),
            forall|p: PhysPageNum| #[trigger]
                final(kernel_space).owns(p) ==> old(kernel_space).owns(p) || !old(allocator).is_allocated(p),
            r.is_err() ==> forall|q: PhysPageNum| #[trigger]
                final(allocator).is_allocated(q) <==> old(allocator).is_allocated(q) || final(kernel_space).owns(q),
            r.is_err() ==> forall|v: VirtPageNum|
                v.is_valid() ==> #[trigger] final(kernel_space).maps(final(mem), v) == old(
                    kernel_space,
                ).maps(old(mem), v),
            match image_of(elf_data@) {
                Ok((entry, segs)) => match r {
                    Ok(task) => task_created(
                        segs,
                        entry,
                        elf_data@,
                        app_id,
                        *env,
                        old(kernel_space),
                        old(allocator),
                        old(mem),
                        &task,
                        final(kernel_space),
                        final(allocator),
                        final(mem),
                    ),
                    Err(e) => task_refused(
                        e,
                        segs,
                        elf_data@.len() as int,
                        app_id,
                        old(kernel_space),
                        old(allocator),
                        old(mem),
                    ) && !task_fits(
                        segs,
                        elf_data@.len() as int,
                        app_id,
                        old(kernel_space),
                        old(allocator),
                        old(mem),
                    ) && e != LoadError::NoKernelStack && !(e matches LoadError::Image(_)),
                },
                Err(e) => r matches Err(LoadError::Image(cause)) && cause == e && *final(kernel_space) == *old(kernel_space),
            },
    {
        let ghost ks0 = *kernel_space;
        let ghost a0 = *allocator;
        let ghost m0 = *mem;
        proof {
            lemma_nothing_done(&ks0, &a0, &m0);
        }
        let loaded = MemorySet::from_elf(elf_data, env.strampoline, allocator, mem);
        let ghost a1 = *allocator;
        let ghost m1 = *mem;
        let (memory_set, user_sp, entry_point) = match loaded {
            Ok(triple) => triple,
            Err(e) => {
                proof {
                    lemma_after_load(&ks0, &a0, &m0, &a0, &m0);
                    if let Ok((entry, segs)) = image_of(elf_data@) {
                        lemma_after_load(&ks0, &a0, &m0, &a1, &m1);
                        lemma_load_refused(
                            e,
                            segs,
                            entry,
                            elf_data@,
                            app_id,
                            &ks0,
                            &a0,
                            &m0,
                            &a1,
                            &m1,
                            trampoline_frame(env.strampoline),
                        );
                    }
                }
                return Err(e);
            },
        };
        let ghost segs = image_of(elf_data@).unwrap().1;
        let ghost n = segs.len() as int;
        proof {
            lemma_after_load(&ks0, &a0, &m0, &a1, &m1);
            lemma_trap_page(&a0, &m0, &memory_set, &a1, &m1, segs, trampoline_frame(env.strampoline));
            crate::address::lemma_address_bits(TRAP_CONTEXT);
        }
        let trap_va = VirtAddr::from(TRAP_CONTEXT);
        let trap_vpn = VirtPageNum::from_addr(trap_va);
        let trap_cx_ppn = match memory_set.translate(trap_vpn, mem) {
            Some(pte) => pte.ppn(),
            None => {
                return Err(LoadError::Mapping(MapError::NotMapped));
            },
        };
        let (kernel_stack_bottom, kernel_stack_top) = kernel_stack_position(app_id);
        proof {
            crate::page_table::lemma_flag_unions();
        }
        let r = kernel_space.insert_framed_area(
            VirtAddr::from(kernel_stack_bottom),
            VirtAddr::from(kernel_stack_top),
            MapPermission::R().union(MapPermission::W()),
            allocator,
            mem,
        );
        let ghost a2 = *allocator;
        let ghost m2 = *mem;
        let ghost ks2 = *kernel_space;
        proof {
            assert(framed_shape(
                VirtAddr(kernel_stack_bottom % crate::address::VA_LIMIT),
                VirtAddr(kernel_stack_top % crate::address::VA_LIMIT),
                MapPermission { bits: 0x06 },
            ) == kernel_stack_shape(app_id));
            lemma_after_stack(
                &ks0,
                &a0,
                &m0,
                &memory_set,
                &a1,
                &m1,
                &ks2,
                &a2,
                &m2,
                segs,
                trampoline_frame(env.strampoline),
                kernel_stack_shape(app_id),
                r,
            );
        }
        if let Err(e) = r {
            let ghost a_before = *allocator;
            let ghost m_before = *mem;
            memory_set.release(allocator, mem);
            proof {
                lemma_user_space_released(
                    &ks0,
                    &a0,
                    &m0,
                    &memory_set,
                    &ks2,
                    &a_before,
                    &m_before,
                    allocator,
                    mem,
                );
                lemma_stack_refused(e, segs, elf_data@.len() as int, app_id, &ks0, &a0, &m0);
            }
            return Err(LoadError::Mapping(e));
        }
        let task_control_block = TaskControlBlock {
            task_status: TaskStatus::Ready,
            task_cx: TaskContext::goto_trap_return(kernel_stack_top, env.trap_return),
            memory_set,
            trap_cx_ppn,
            base_size: user_sp,
            pid: app_id,
            exit_code: 0,
        };
        let trap_cx = TrapContext::app_init_context(
            entry_point,
            user_sp,
            kernel_space.token(),
            kernel_stack_top,
            env.trap_handler,
            env.sstatus,
        );
        trap_cx.store(trap_cx_ppn, mem);
        proof {
            assert forall|i: int| 0 <= i < 37 implies #[trigger] mem.word(trap_cx_ppn, i)
                == initial_word(
                i,
                entry_point,
                user_sp,
                ks2.table().spec_token(),
                kernel_stack_top,
                *env,
            ) by {
                assert(mem.word(trap_cx_ppn, i) == trap_cx.word(i));
            }
            lemma_task_ready(
                &ks0,
                &a0,
                &m0,
                &a1,
                &m1,
                &ks2,
                &a2,
                &m2,
                mem,
                &task_control_block,
                segs,
                image_of(elf_data@).unwrap().0,
                elf_data@,
                app_id,
                *env,
            );
        }
        Ok(task_control_block)
    }
}

/// A task whose address space could not be built was refused for the
/// reason that the error gives.
#[verifier::spinoff_prover]
proof fn lemma_load_refused(
    e: LoadError,
    segs: Seq<SegmentHeader>,
    entry: u64,
    data: Seq<u8>,
    app_id: u64,
    ks0: &MemorySet,
    a0: &StackFrameAllocator,
    m0: &PhysMemory,
    a1: &StackFrameAllocator,
    m1: &PhysMemory,
    tramp: PhysPageNum,
)
    requires
        crate::memory_set::load_post(
            segs,
            entry,
            data,
            a0,
            m0,
            a1,
            m1,
            tramp,
            Err::<(MemorySet, u64, u64), LoadError>(e),
        ),
    ensures
        task_refused(e, segs, data.len() as int, app_id, ks0, a0, m0),
        !task_fits(segs, data.len() as int, app_id, ks0, a0, m0),
        e != LoadError::NoKernelStack,
        !(e matches LoadError::Image(_)),
{
    assert(task_refused(e, segs, data.len() as int, app_id, ks0, a0, m0)) by {
        reveal(task_refused);
        assert(kernel_stack_shape(app_id).frames() >= 0);
    }
    lemma_refused_does_not_fit(e, segs, data.len() as int, app_id, ks0, a0, m0);
}

/// A task whose kernel stack could not be mapped was refused for the
/// reason that the error gives.
#[verifier::spinoff_prover]
proof fn lemma_stack_refused(
    e: MapError,
    segs: Seq<SegmentHeader>,
    len: int,
    app_id: u64,
    ks0: &MemorySet,
    a0: &StackFrameAllocator,
    m0: &PhysMemory,
)
    requires
        e != MapError::NotMapped,
        e == MapError::AlreadyMapped ==> exists|v: u64| #[trigger]
            kernel_stack_shape(app_id).covers(v) && ks0.maps(m0, VirtPageNum(v)).is_some(),
        e == MapError::OutOfFrames ==> a0@.free_count() < 3 + crate::memory_set::total_frames(
            image_shapes(segs),
            (segs.len() + 2) as int,
        ) + kernel_stack_shape(app_id).frames(),
    ensures
        task_refused(LoadError::Mapping(e), segs, len, app_id, ks0, a0, m0),
        !task_fits(segs, len, app_id, ks0, a0, m0),
{
    assert(task_refused(LoadError::Mapping(e), segs, len, app_id, ks0, a0, m0)) by {
        reveal(task_refused);
    }
    lemma_refused_does_not_fit(LoadError::Mapping(e), segs, len, app_id, ks0, a0, m0);
}

/// Before anything is done, nothing has been touched.
#[verifier::spinoff_prover]
proof fn lemma_nothing_done(ks0: &MemorySet, a0: &StackFrameAllocator, m0: &PhysMemory)
    requires
        ks0.inv(m0, a0),
    ensures
        others_untouched(a0@, m0, a0@, m0, ks0.frame_set()),
{
    crate::frame_allocator::lemma_step_ok_refl(a0@, m0, Set::empty());
    lemma_untouched_widen(a0, m0, a0, m0, ks0.frame_set());
}

/// The kernel's address space is whole after the address space of a task
/// was built from frames that were free.
#[verifier::spinoff_prover]
proof fn lemma_after_load(
    ks0: &MemorySet,
    a0: &StackFrameAllocator,
    m0: &PhysMemory,
    a1: &StackFrameAllocator,
    m1: &PhysMemory,
)
    requires
        ks0.inv(m0, a0),
        a1.wf(),
        m1.wf(),
        a1.fits(m1),
        others_untouched(a0@, m0, a1@, m1, Set::empty()),
    ensures
        ks0.inv(m1, a1),
        others_untouched(a0@, m0, a1@, m1, ks0.frame_set()),
        forall|p: PhysPageNum| #[trigger] ks0.owns(p) ==> a0.is_allocated(p),
        forall|v: VirtPageNum| #[trigger] ks0.maps(m1, v) == ks0.maps(m0, v),
{
    lemma_space_survives(ks0, a0, m0, a1, m1, Set::empty());
    lemma_untouched_widen(a0, m0, a1, m1, ks0.frame_set());
}

/// The page of the trap context of a task whose address space was just
/// built is mapped to a frame of the last area of the address space.
#[verifier::spinoff_prover]
proof fn lemma_trap_page(
    a0: &StackFrameAllocator,
    m0: &PhysMemory,
    space: &MemorySet,
    a1: &StackFrameAllocator,
    m1: &PhysMemory,
    segs: Seq<SegmentHeader>,
    tramp: PhysPageNum,
)
    requires
        crate::memory_set::built(
            a0,
            m0,
            space,
            a1,
            m1,
            image_shapes(segs),
            (segs.len() + 2) as int,
            tramp,
        ),
    ensures
        m1.wf(),
        crate::page_table::walkable(m1, space.table().root()),
        space.maps(m1, VirtPageNum(TRAP_CONTEXT_PAGE)) matches Some(e) && m1.contains(
            e.spec_ppn(),
        ) && space.data_set().contains(e.spec_ppn()) && space.area_list()[(segs.len() + 1) as int].owns(
            e.spec_ppn(),
        ) && space.area_list().last().framed().contains_key(TRAP_CONTEXT_PAGE)
            && space.area_list().last().framed()[TRAP_CONTEXT_PAGE] == e.spec_ppn()
            && space.area_list().last().perm().bits == 0x06,
{
    let n = segs.len() as int;
    lemma_space_walkable(space, m1, a1);
    assert(space.area_list()[n + 1].shape() == image_shapes(segs)[n + 1]);
    lemma_area_page(space, m1, a1, n + 1, TRAP_CONTEXT_PAGE);
    let area = space.area_list()[n + 1];
    assert(area.owns(area.framed()[TRAP_CONTEXT_PAGE]));
}

/// After the kernel stack was mapped, or could not be mapped, the kernel's
/// address space and the address space of the task are both whole, and the
/// task's is as it was built.
#[verifier::spinoff_prover]
proof fn lemma_after_stack(
    ks0: &MemorySet,
    a0: &StackFrameAllocator,
    m0: &PhysMemory,
    space: &MemorySet,
    a1: &StackFrameAllocator,
    m1: &PhysMemory,
    ks2: &MemorySet,
    a2: &StackFrameAllocator,
    m2: &PhysMemory,
    segs: Seq<SegmentHeader>,
    tramp: PhysPageNum,
    shape: AreaShape,
    r: Result<(), MapError>,
)
    requires
        ks0.inv(m0, a0),
        ks0.inv(m1, a1),
        others_untouched(a0@, m0, a1@, m1, ks0.frame_set()),
        crate::memory_set::built(
            a0,
            m0,
            space,
            a1,
            m1,
            image_shapes(segs),
            (segs.len() + 2) as int,
            tramp,
        ),
        crate::memory_set::push_post(ks0, a1, m1, ks2, a2, m2, shape, None, r),
        others_untouched(a0@, m0, a1@, m1, Set::empty()),
    ensures
        ks2.inv(m2, a2),
        space.inv(m2, a2),
        others_untouched(a0@, m0, a2@, m2, ks0.frame_set()),
        forall|p: PhysPageNum| #[trigger] ks2.owns(p) ==> ks0.owns(p) || !a0.is_allocated(p),
        forall|p: PhysPageNum| #[trigger]
            space.owns(p) ==> !ks2.owns(p) && !a0.is_allocated(p) && m2.same_page(m1, p),
        forall|v: VirtPageNum| #[trigger] space.maps(m2, v) == space.maps(m1, v),
        forall|i: int, d: Option<Seq<u8>>|
            0 <= i < space.area_list().len() && space.area_list()[i].kind() == MapType::Framed
                && #[trigger] filled(space, m1, i, d) ==> filled(space, m2, i, d),
        forall|v: VirtPageNum|
            v.is_valid() && (r.is_err() || !shape.covers(v.0)) ==> #[trigger] ks2.maps(m2, v)
                == ks0.maps(m0, v),
        r.is_err() ==> r != Err::<(), MapError>(MapError::NotMapped),
        r == Err::<(), MapError>(MapError::AlreadyMapped) ==> exists|v: u64| #[trigger]
            shape.covers(v) && ks0.maps(m0, VirtPageNum(v)).is_some(),
        r == Err::<(), MapError>(MapError::OutOfFrames) ==> a0@.free_count() < 3
            + crate::memory_set::total_frames(image_shapes(segs), (segs.len() + 2) as int)
            + shape.frames(),
        forall|q: PhysPageNum| #[trigger]
            a2.is_allocated(q) <==> a0.is_allocated(q) || ks2.owns(q) || space.owns(q),
{
    crate::frame_allocator::lemma_step_ok_refl(a0@, m0, Set::empty());
    lemma_space_survives(ks0, a0, m0, a0, m0, Set::empty());
    assert forall|q: PhysPageNum| #[trigger]
        a2.is_allocated(q) <==> a0.is_allocated(q) || ks2.owns(q) || space.owns(q) by {
        assert(a1@.is_allocated(q.0) <==> (a0@.is_allocated(q.0) && !Set::<
            PhysPageNum,
        >::empty().contains(q)) || space.frame_set().contains(q));
        assert(a2@.is_allocated(q.0) <==> (a1@.is_allocated(q.0) && !ks0.frame_set().contains(q))
            || ks2.frame_set().contains(q));
        if ks0.owns(q) {
            assert(ks2.owns(q));
        }
        if space.owns(q) {
            assert(space.frame_set().contains(q));
            assert(!a0.is_allocated(q)) by {
                assert(!Set::<PhysPageNum>::empty().contains(q));
            }
            if ks0.owns(q) {
                assert(a0.is_allocated(q));
            }
        }
    }
    lemma_space_survives(ks0, a0, m0, a1, m1, Set::empty());
    assert forall|v: VirtPageNum|
        v.is_valid() && (r.is_err() || !shape.covers(v.0)) implies #[trigger] ks2.maps(m2, v)
        == ks0.maps(m0, v) by {
        assert(ks2.maps(m2, v) == ks0.maps(m1, v));
        assert(ks0.maps(m1, v) == ks0.maps(m0, v));
    }
    if let Err(e) = r {
        if e == MapError::AlreadyMapped {
            let v = choose|v: u64| #[trigger]
                shape.covers(v) && ks0.maps(m1, VirtPageNum(v)).is_some();
            assert(ks0.maps(m1, VirtPageNum(v)) == ks0.maps(m0, VirtPageNum(v)));
        }
    }
    assert forall|p: PhysPageNum| #[trigger] space.owns(p) implies !ks0.frame_set().contains(p)
        && !a0.is_allocated(p) by {
        assert(space.frame_set().contains(p));
        if ks0.owns(p) {
            lemma_space_survives(ks0, a0, m0, a0, m0, Set::empty());
        }
    }
    crate::frame_allocator::lemma_step_ok_refl(a0@, m0, Set::empty());
    lemma_space_survives(ks0, a0, m0, a0, m0, Set::empty());
    lemma_space_survives(space, a1, m1, a2, m2, ks0.frame_set());
    crate::frame_allocator::lemma_others_untouched_trans(
        a0@,
        m0,
        a1@,
        m1,
        a2@,
        m2,
        ks0.frame_set(),
        ks0.frame_set(),
    );
    assert forall|p: PhysPageNum| #[trigger] ks2.owns(p) implies ks0.owns(p) || !a0.is_allocated(
        p,
    ) by {
        if !ks0.owns(p) {
            assert(ks2.frame_set().contains(p) && !ks0.frame_set().contains(p));
            assert(!a1.is_allocated(p));
            if a0.is_allocated(p) {
                assert(crate::frame_allocator::frame_kept(a1@, m0, m1, p));
            }
        }
    }
    assert forall|p: PhysPageNum| #[trigger] space.owns(p) implies !ks2.owns(p) by {
        if ks2.owns(p) {
            assert(!ks0.owns(p));
            assert(ks2.frame_set().contains(p) && !ks0.frame_set().contains(p));
            assert(!a1.is_allocated(p));
        }
    }
}

/// The task is set up once its trap context is written.
#[verifier::spinoff_prover]
proof fn lemma_task_ready(
    ks0: &MemorySet,
    a0: &StackFrameAllocator,
    m0: &PhysMemory,
    a1: &StackFrameAllocator,
    m1: &PhysMemory,
    ks2: &MemorySet,
    a2: &StackFrameAllocator,
    m2: &PhysMemory,
    m3: &PhysMemory,
    task: &TaskControlBlock,
    segs: Seq<SegmentHeader>,
    entry: u64,
    data: Seq<u8>,
    app_id: u64,
    env: KernelEnv,
)
    requires
        app_id <= MAX_TASK_ID,
        ks0.inv(m0, a0),
        crate::memory_set::load_post(
            segs,
            entry,
            data,
            a0,
            m0,
            a1,
            m1,
            trampoline_frame(env.strampoline),
            Ok((task.memory_set, task.base_size, entry)),
        ),
        crate::memory_set::push_post(ks0, a1, m1, ks2, a2, m2, kernel_stack_shape(app_id), None, Ok(())),
        ks2.inv(m2, a2),
        task.memory_set.inv(m2, a2),
        others_untouched(a0@, m0, a2@, m2, ks0.frame_set()),
        forall|p: PhysPageNum| #[trigger] ks2.owns(p) ==> ks0.owns(p) || !a0.is_allocated(p),
        forall|p: PhysPageNum| #[trigger]
            task.memory_set.owns(p) ==> !ks2.owns(p) && !a0.is_allocated(p) && m2.same_page(m1, p),
        forall|v: VirtPageNum| #[trigger] task.memory_set.maps(m2, v) == task.memory_set.maps(m1, v),
        forall|i: int, d: Option<Seq<u8>>|
            0 <= i < task.memory_set.area_list().len() && task.memory_set.area_list()[i].kind()
                == MapType::Framed && #[trigger] filled(&task.memory_set, m1, i, d) ==> filled(
                &task.memory_set,
                m2,
                i,
                d,
            ),
        task.task_status == TaskStatus::Ready,
        task.pid == app_id,
        task.exit_code == 0,
        task.task_cx.ra() == env.trap_return,
        task.task_cx.sp() == kernel_stack_top(app_id as int),
        task.task_cx.saved() == Seq::new(12, |i: int| 0u64),
        forall|v: VirtPageNum|
            v.is_valid() && !kernel_stack_shape(app_id).covers(v.0) ==> #[trigger] ks2.maps(m2, v)
                == ks0.maps(m0, v),
        task.memory_set.maps(m1, VirtPageNum(TRAP_CONTEXT_PAGE)) matches Some(e) && e.spec_ppn()
            == task.trap_cx_ppn && m1.contains(e.spec_ppn()) && task.memory_set.data_set().contains(
            e.spec_ppn(),
        ) && task.memory_set.area_list()[(segs.len() + 1) as int].owns(e.spec_ppn()),
        task.memory_set.area_list().last().framed().contains_key(TRAP_CONTEXT_PAGE),
        task.memory_set.area_list().last().framed()[TRAP_CONTEXT_PAGE] == task.trap_cx_ppn,
        task.memory_set.area_list().last().perm().bits == 0x06,
        m3.wf(),
        m3.same_range(m2),
        forall|p: PhysPageNum, i: int|
            0 <= i < 512 && m2.contains(p) && (p != task.trap_cx_ppn || i >= 37) ==> #[trigger] m3.word(
                p,
                i,
            ) == m2.word(p, i),
        forall|i: int|
            0 <= i < 37 ==> #[trigger] m3.word(task.trap_cx_ppn, i) == initial_word(
                i,
                entry,
                task.base_size,
                ks2.table().spec_token(),
                kernel_stack_top(app_id as int) as u64,
                env,
            ),
    ensures
        task_created(segs, entry, data, app_id, env, ks0, a0, m0, task, ks2, a2, m3),
        ks2.inv(m3, a2),
        others_untouched(a0@, m0, a2@, m3, ks0.frame_set()),
{
    let space = &task.memory_set;
    let n = segs.len() as int;
    let ppn = task.trap_cx_ppn;
    assert forall|q: PhysPageNum| m2.contains(q) && q != ppn implies #[trigger] m3.same_page(m2, q) by {}
    lemma_data_write(space, a2, m2, m3, ppn);
    assert(space.owns(ppn));
    assert(others_untouched(a2@, m2, a2@, m3, space.frame_set())) by {
        assert forall|p: PhysPageNum|
            a2@.is_allocated(p.0) && !space.frame_set().contains(p) implies #[trigger] crate::frame_allocator::frame_kept(
            a2@,
            m2,
            m3,
            p,
        ) by {
            assert(m2.contains(p));
        }
    }
    lemma_space_survives(ks2, a2, m2, a2, m3, space.frame_set());
    assert forall|v: VirtPageNum|
        v.is_valid() && !kernel_stack_shape(app_id).covers(v.0) implies #[trigger] ks2.maps(m3, v)
        == ks0.maps(m0, v) by {
        assert(ks2.maps(m3, v) == ks2.maps(m2, v));
    }
    assert(others_untouched(a0@, m0, a2@, m3, ks0.frame_set())) by {
        assert forall|p: PhysPageNum|
            a0@.is_allocated(p.0) && !ks0.frame_set().contains(p) implies #[trigger] crate::frame_allocator::frame_kept(
            a2@,
            m0,
            m3,
            p,
        ) by {
            assert(crate::frame_allocator::frame_kept(a2@, m0, m2, p));
            assert(p != ppn);
            assert(m0.contains(p));
            assert(m3.same_page(m2, p));
            assert forall|i: int| 0 <= i < 512 implies #[trigger] m3.word(p, i) == m0.word(p, i) by {
                assert(m3.word(p, i) == m2.word(p, i));
            }
        }
    }
    assert forall|i: int| 0 <= i < n implies #[trigger] filled(
        space,
        m3,
        i,
        Some(segment_bytes(data, segs[i])),
    ) by {
        assert(filled(space, m1, i, Some(segment_bytes(data, segs[i]))));
        assert(space.area_list()[i].shape() == image_shapes(segs)[i]);
        assert(filled(space, m2, i, Some(segment_bytes(data, segs[i]))));
        lemma_other_area(space, m2, a2, i, n + 1, ppn);
    }
    assert(filled(space, m3, n, None)) by {
        assert(space.area_list()[n].shape() == image_shapes(segs)[n]);
        assert(filled(space, m2, n, None));
        lemma_other_area(space, m2, a2, n, n + 1, ppn);
    }
    assert(space.maps(m3, VirtPageNum(TRAP_CONTEXT_PAGE)) == space.maps(
        m1,
        VirtPageNum(TRAP_CONTEXT_PAGE),
    ));
    assert(space.maps(m3, trampoline_page()) == space.maps(m1, trampoline_page()));
}

/// After the address space of a task that could not be set up was taken
/// down, the kernel's address space is whole, and the frames that are
/// allocated are those that were before and those of the kernel's address
/// space.
#[verifier::spinoff_prover]
proof fn lemma_user_space_released(
    ks0: &MemorySet,
    a0: &StackFrameAllocator,
    m0: &PhysMemory,
    space: &MemorySet,
    ks2: &MemorySet,
    a2: &StackFrameAllocator,
    m2: &PhysMemory,
    a3: &StackFrameAllocator,
    m3: &PhysMemory,
)
    requires
        ks0.inv(m0, a0),
        ks2.inv(m2, a2),
        space.inv(m2, a2),
        others_untouched(a0@, m0, a2@, m2, ks0.frame_set()),
        forall|p: PhysPageNum| #[trigger] ks2.owns(p) ==> ks0.owns(p) || !a0.is_allocated(p),
        forall|p: PhysPageNum| #[trigger] space.owns(p) ==> !ks2.owns(p) && !a0.is_allocated(p),
        forall|q: PhysPageNum| #[trigger]
            a2.is_allocated(q) <==> a0.is_allocated(q) || ks2.owns(q) || space.owns(q),
        m3.wf(),
        a3.wf(),
        a3.fits(m3),
        forall|q: PhysPageNum| #[trigger] a3.is_allocated(q) <==> a2.is_allocated(q) && !space.owns(q),
        others_untouched(a2@, m2, a3@, m3, space.frame_set()),
    ensures
        ks2.inv(m3, a3),
        others_untouched(a0@, m0, a3@, m3, ks0.frame_set()),
        forall|q: PhysPageNum| #[trigger] a3.is_allocated(q) <==> a0.is_allocated(q) || ks2.owns(q),
        forall|v: VirtPageNum| #[trigger] ks2.maps(m3, v) == ks2.maps(m2, v),
{
    assert forall|p: PhysPageNum| #[trigger] ks2.owns(p) implies !space.frame_set().contains(p) by {
        if space.owns(p) {
            assert(!ks2.owns(p));
        }
    }
    lemma_space_survives(ks2, a2, m2, a3, m3, space.frame_set());
    assert forall|p: PhysPageNum| space.frame_set().contains(p) implies ks0.frame_set().contains(
        p,
    ) || !a0@.is_allocated(p.0) by {
        assert(space.owns(p));
    }
    crate::frame_allocator::lemma_others_untouched_trans(
        a0@,
        m0,
        a2@,
        m2,
        a3@,
        m3,
        ks0.frame_set(),
        space.frame_set(),
    );
}

/// Frames that are left untouched by a step of an owner of nothing are left
/// untouched by a step of any owner.
#[verifier::spinoff_prover]
proof fn lemma_untouched_widen(
    a0: &StackFrameAllocator,
    m0: &PhysMemory,
    a1: &StackFrameAllocator,
    m1: &PhysMemory,
    mine: Set<PhysPageNum>,
)
    requires
        others_untouched(a0@, m0, a1@, m1, Set::empty()),
    ensures
        others_untouched(a0@, m0, a1@, m1, mine),
{
    assert forall|p: PhysPageNum|
        a0@.is_allocated(p.0) && !mine.contains(p) implies #[trigger] crate::frame_allocator::frame_kept(
        a1@,
        m0,
        m1,
        p,
    ) by {
        assert(!Set::<PhysPageNum>::empty().contains(p));
    }
}


/// A frame that belongs to area `j` of a whole address space does not belong
/// to another area `i` of it.
#[verifier::spinoff_prover]
proof fn lemma_other_area(
    ms: &MemorySet,
    mem: &PhysMemory,
    a: &StackFrameAllocator,
    i: int,
    j: int,
    p: PhysPageNum,
)
    requires
        ms.inv(mem, a),
        0 <= i < ms.area_list().len(),
        0 <= j < ms.area_list().len(),
        i != j,
        ms.area_list()[j].owns(p),
    ensures
        !ms.area_list()[i].owns(p),
{
    reveal(MemorySet::whole);
}

} // verus!
