use rv_kernel::address::{PhysPageNum, VirtPageNum};
use rv_kernel::image::ImageError;
use rv_kernel::kernel::Kernel;
use rv_kernel::memory_set::{KernelLayout, LoadError};
use rv_kernel::page_table::MapError;
use rv_kernel::task::task::{KernelEnv, TaskStatus};
use rv_kernel::trap::{is_handled, Exception, Interrupt, Trap, TrapOutcome};

const TRAMPOLINE_CODE: u64 = 0x8020_1000;
const TRAP_HANDLER: u64 = 0x8020_0100;
const TRAP_RETURN: u64 = 0x8020_0200;
const TIMER: u64 = (1 << 63) | 5;

fn layout() -> KernelLayout {
    KernelLayout {
        stext: 0x8020_0000,
        etext: 0x8020_3000,
        srodata: 0x8020_3000,
        erodata: 0x8020_4000,
        sdata: 0x8020_4000,
        edata: 0x8020_5000,
        sbss_with_stack: 0x8020_5000,
        ebss: 0x8020_6000,
        ekernel: 0x8020_6000,
        strampoline: TRAMPOLINE_CODE,
    }
}

fn env() -> KernelEnv {
    KernelEnv {
        strampoline: TRAMPOLINE_CODE,
        trap_handler: TRAP_HANDLER,
        trap_return: TRAP_RETURN,
        sstatus: 0x100,
    }
}

fn kernel() -> Kernel {
    Kernel::new(&layout(), env(), PhysPageNum(0x80000), 2048).unwrap()
}

/// A 64-bit image with one loadable segment.
fn image(entry: u64, vaddr: u64, mem_size: u64, flags: u32, bytes: &[u8]) -> Vec<u8> {
    let mut file = vec![0x7f, b'E', b'L', b'F', 2, 1, 1, 0, 0, 0, 0, 0, 0, 0, 0, 0];
    file.extend_from_slice(&2u16.to_le_bytes());
    file.extend_from_slice(&243u16.to_le_bytes());
    file.extend_from_slice(&1u32.to_le_bytes());
    file.extend_from_slice(&entry.to_le_bytes());
    file.extend_from_slice(&64u64.to_le_bytes());
    file.extend_from_slice(&0u64.to_le_bytes());
    file.extend_from_slice(&0u32.to_le_bytes());
    file.extend_from_slice(&64u16.to_le_bytes());
    file.extend_from_slice(&56u16.to_le_bytes());
    file.extend_from_slice(&1u16.to_le_bytes());
    file.extend_from_slice(&[0u8; 6]);
    file.extend_from_slice(&1u32.to_le_bytes());
    file.extend_from_slice(&flags.to_le_bytes());
    file.extend_from_slice(&120u64.to_le_bytes());
    file.extend_from_slice(&vaddr.to_le_bytes());
    file.extend_from_slice(&vaddr.to_le_bytes());
    file.extend_from_slice(&(bytes.len() as u64).to_le_bytes());
    file.extend_from_slice(&mem_size.to_le_bytes());
    file.extend_from_slice(&0x1000u64.to_le_bytes());
    file.extend_from_slice(bytes);
    file
}

/// The image that most tests load: one readable and executable segment from
/// 0x1000 up to 0x2000, entered at 0x1000.
fn program() -> Vec<u8> {
    image(0x1000, 0x1000, 0x1000, 5, b"hello, world")
}

/// Lets the running task make a system call.
fn syscall(kernel: &mut Kernel, id: u64, args: [u64; 3]) -> TrapOutcome {
    let pid = kernel.current_task().unwrap();
    let mut cx = kernel.current_trap_cx().unwrap();
    cx.x[17] = id;
    cx.x[10] = args[0];
    cx.x[11] = args[1];
    cx.x[12] = args[2];
    kernel.store_trap_cx(pid, &cx);
    kernel.trap_handler(8, 0, 0)
}

#[test]
fn a_new_kernel_has_no_task() {
    let mut k = kernel();
    assert_eq!(k.task_count(), 0);
    assert_eq!(k.ready_count(), 0);
    assert_eq!(k.current_task(), None);
    assert_eq!(k.current_user_token(), None);
    assert!(k.current_trap_cx().is_none());
    assert_eq!(k.run_tasks(), None);
    assert_eq!(k.task_status(0), None);
    assert_eq!(k.exit_code_of(0), None);
    assert_eq!(k.suspend_current_and_run_next(), None);
    assert_eq!(k.exit_current_and_run_next(1), None);
    assert_eq!(k.take_current_task(), None);
}

#[test]
fn first_task_starts_at_its_entry_on_its_stack() {
    let mut k = kernel();
    let pid = k.load_task(&program()).unwrap();
    assert_eq!(pid, 0);
    assert_eq!(k.task_status(0), Some(TaskStatus::Ready));
    assert_eq!(k.ready_count(), 1);
    // The first pass of the idle flow of control.
    assert_eq!(k.run_tasks(), Some(0));
    assert_eq!(k.current_task(), Some(0));
    assert_eq!(k.task_status(0), Some(TaskStatus::Running));
    let cx = k.current_trap_cx().unwrap();
    assert_eq!(cx.sepc, 0x1000);
    // The segment ends at page 2; one guard page, then two pages of stack.
    assert_eq!(cx.x[2], 0x5000);
    assert!(cx.x.iter().enumerate().all(|(i, v)| i == 2 || *v == 0));
    // The previous mode is user mode.
    assert_eq!(cx.sstatus & 0x100, 0);
    assert_eq!(cx.trap_handler, TRAP_HANDLER);
    assert_eq!(cx.kernel_sp, 0xffff_ffff_ffff_f000);
    assert_eq!(cx.kernel_satp >> 60, 8);
    // The code of the task is in its memory.
    assert_eq!(k.read_user(0, 0x1000, 12), Some(b"hello, world".to_vec()));
    assert_eq!(k.read_user(0, 0x1ffc, 4), Some(vec![0; 4]));
    // The guard page is not mapped, the stack is.
    assert_eq!(k.read_user(0, 0x2000, 1), None);
    assert_eq!(k.read_user(0, 0x3000, 0x2000), Some(vec![0; 0x2000]));
    assert_eq!(k.read_user(0, 0x3000, 0x2001), None);
    // Nothing else is ready.
    assert_eq!(k.run_tasks(), None);
}

#[test]
fn each_task_has_its_own_address_space_and_kernel_stack() {
    let mut k = kernel();
    assert_eq!(k.load_task(&image(0x1000, 0x1000, 0x1000, 5, b"first")), Ok(0));
    assert_eq!(k.load_task(&image(0x1000, 0x1000, 0x1000, 5, b"second")), Ok(1));
    assert_eq!(k.read_user(0, 0x1000, 5), Some(b"first".to_vec()));
    assert_eq!(k.read_user(1, 0x1000, 6), Some(b"second".to_vec()));
    let cx0 = k.trap_cx_of(0).unwrap();
    let cx1 = k.trap_cx_of(1).unwrap();
    assert_eq!(cx0.kernel_sp, 0xffff_ffff_ffff_f000);
    assert_eq!(cx1.kernel_sp, 0xffff_ffff_ffff_f000 - 0x3000);
    assert_eq!(cx0.kernel_satp, cx1.kernel_satp);
    assert!(k.trap_cx_of(2).is_none());
    assert_eq!(k.run_tasks(), Some(0));
    let token0 = k.current_user_token().unwrap();
    k.suspend_current_and_run_next();
    assert_eq!(k.run_tasks(), Some(1));
    let token1 = k.current_user_token().unwrap();
    assert_ne!(token0, token1);
    assert_ne!(token0, cx0.kernel_satp);
}

#[test]
fn exit_is_final_and_the_parent_sees_the_code() {
    let mut k = kernel();
    let parent = k.load_task(&program()).unwrap();
    let child = k.load_task(&program()).unwrap();
    assert_eq!(k.run_tasks(), Some(parent));
    // The child has not ended: the parent is told to try again.
    assert!(matches!(syscall(&mut k, 260, [child as u64, 0x4ff8, 0]), TrapOutcome::Resume));
    assert_eq!(k.current_trap_cx().unwrap().x[10], 0xffff_ffff_ffff_fffe);
    assert!(matches!(syscall(&mut k, 124, [0, 0, 0]), TrapOutcome::Yielded(0)));
    assert_eq!(k.run_tasks(), Some(child));
    // The child ends with code 42.
    assert!(matches!(syscall(&mut k, 93, [42, 0, 0]), TrapOutcome::Exited(1, 42)));
    assert_eq!(k.task_status(child), Some(TaskStatus::Exited));
    assert_eq!(k.exit_code_of(child), Some(42));
    assert_eq!(k.current_task(), None);
    // From now on only the parent is ever selected.
    for _ in 0..5 {
        assert_eq!(k.run_tasks(), Some(parent));
        assert!(matches!(syscall(&mut k, 124, [0, 0, 0]), TrapOutcome::Yielded(0)));
        assert_eq!(k.task_status(child), Some(TaskStatus::Exited));
    }
    assert_eq!(k.run_tasks(), Some(parent));
    // The parent waits for the child and finds the code on its stack.
    let outcome = syscall(&mut k, 260, [child as u64, 0x4ff8, 0]);
    assert!(matches!(outcome, TrapOutcome::Resume));
    let cx = k.current_trap_cx().unwrap();
    assert_eq!(cx.x[10], child as u64);
    assert_eq!(k.read_user(parent, 0x4ff8, 4), Some(42i32.to_le_bytes().to_vec()));
    assert_eq!(k.task_status(parent), Some(TaskStatus::Running));
}

#[test]
fn exit_codes_can_be_negative() {
    let mut k = kernel();
    let parent = k.load_task(&program()).unwrap();
    let child = k.load_task(&program()).unwrap();
    k.run_tasks();
    k.suspend_current_and_run_next();
    assert_eq!(k.run_tasks(), Some(child));
    assert!(matches!(syscall(&mut k, 93, [(-7i64) as u64, 0, 0]), TrapOutcome::Exited(1, -7)));
    assert_eq!(k.run_tasks(), Some(parent));
    syscall(&mut k, 260, [child as u64, 0x3004, 0]);
    assert_eq!(k.read_user(parent, 0x3000, 12), Some(vec![0, 0, 0, 0, 0xf9, 0xff, 0xff, 0xff, 0, 0, 0, 0]));
}

#[test]
fn waiting_fails_for_tasks_that_are_not_there_and_places_that_cannot_be_written() {
    let mut k = kernel();
    let parent = k.load_task(&program()).unwrap();
    let child = k.load_task(&program()).unwrap();
    k.run_tasks();
    k.suspend_current_and_run_next();
    k.run_tasks();
    k.exit_current_and_run_next(3);
    assert_eq!(k.run_tasks(), Some(parent));
    let failed = u64::MAX;
    // No such task.
    syscall(&mut k, 260, [7, 0x4ff8, 0]);
    assert_eq!(k.current_trap_cx().unwrap().x[10], failed);
    // Itself.
    syscall(&mut k, 260, [parent as u64, 0x4ff8, 0]);
    assert_eq!(k.current_trap_cx().unwrap().x[10], failed);
    // The code page cannot be written.
    syscall(&mut k, 260, [child as u64, 0x1000, 0]);
    assert_eq!(k.current_trap_cx().unwrap().x[10], failed);
    assert_eq!(k.read_user(parent, 0x1000, 4), Some(b"hell".to_vec()));
    // The guard page is not mapped.
    syscall(&mut k, 260, [child as u64, 0x2000, 0]);
    assert_eq!(k.current_trap_cx().unwrap().x[10], failed);
    // The trap context is not for user mode.
    syscall(&mut k, 260, [child as u64, 0x7f_ffff_e000, 0]);
    assert_eq!(k.current_trap_cx().unwrap().x[10], failed);
    // Not a multiple of four.
    syscall(&mut k, 260, [child as u64, 0x4ff9, 0]);
    assert_eq!(k.current_trap_cx().unwrap().x[10], failed);
    // The stack can be written.
    syscall(&mut k, 260, [child as u64, 0x4ffc, 0]);
    assert_eq!(k.current_trap_cx().unwrap().x[10], child as u64);
    assert_eq!(k.read_user(parent, 0x4ffc, 4), Some(vec![3, 0, 0, 0]));
}

#[test]
fn a_fault_ends_only_the_task_that_caused_it() {
    let mut k = kernel();
    let a = k.load_task(&program()).unwrap();
    let b = k.load_task(&program()).unwrap();
    let c = k.load_task(&program()).unwrap();
    assert_eq!(k.run_tasks(), Some(a));
    k.suspend_current_and_run_next();
    assert_eq!(k.run_tasks(), Some(b));
    // Task b loads from an address that is not mapped.
    let mut cx = k.current_trap_cx().unwrap();
    cx.sepc = 0x1008;
    k.store_trap_cx(b, &cx);
    match k.trap_handler(13, 0xdead_0000, 0) {
        TrapOutcome::Killed { task, code, cause, bad_addr, bad_instruction } => {
            assert_eq!(task, b);
            assert_eq!(code, -2);
            assert_eq!(cause, Trap::Exception(Exception::LoadPageFault));
            assert_eq!(bad_addr, 0xdead_0000);
            assert_eq!(bad_instruction, 0x1008);
        }
        other => panic!("unexpected outcome {:?}", other),
    }
    assert_eq!(k.task_status(b), Some(TaskStatus::Exited));
    assert_eq!(k.exit_code_of(b), Some(-2));
    assert_eq!(k.task_status(a), Some(TaskStatus::Ready));
    assert_eq!(k.task_status(c), Some(TaskStatus::Ready));
    // The queue goes on serving the others, in order.
    let mut order = Vec::new();
    for _ in 0..6 {
        let task = k.run_tasks().unwrap();
        order.push(task);
        k.suspend_current_and_run_next();
    }
    assert_eq!(order, vec![c, a, c, a, c, a]);
}

#[test]
fn every_access_fault_ends_the_task_with_the_same_code() {
    for cause in [1u64, 5, 7, 12, 13, 15] {
        let mut k = kernel();
        k.load_task(&program()).unwrap();
        k.run_tasks();
        assert!(matches!(
            k.trap_handler(cause, 0x99, 0),
            TrapOutcome::Killed { task: 0, code: -2, bad_addr: 0x99, bad_instruction: 0x1000, .. }
        ));
        assert_eq!(k.exit_code_of(0), Some(-2));
        assert_eq!(k.run_tasks(), None);
    }
}

#[test]
fn an_illegal_instruction_ends_the_task_with_its_own_code() {
    let mut k = kernel();
    k.load_task(&program()).unwrap();
    k.run_tasks();
    match k.trap_handler(2, 0, 0) {
        TrapOutcome::Killed { task, code, cause, .. } => {
            assert_eq!((task, code), (0, -3));
            assert_eq!(cause, Trap::Exception(Exception::IllegalInstruction));
        }
        other => panic!("unexpected outcome {:?}", other),
    }
    assert_eq!(k.exit_code_of(0), Some(-3));
}

#[test]
fn the_timer_makes_the_task_give_way() {
    let mut k = kernel();
    k.load_task(&program()).unwrap();
    k.load_task(&program()).unwrap();
    assert_eq!(k.run_tasks(), Some(0));
    let before = k.current_trap_cx().unwrap();
    match k.trap_handler(TIMER, 0, 1_000_000) {
        TrapOutcome::Preempted { task, deadline } => {
            assert_eq!(task, 0);
            assert_eq!(deadline, 1_125_000);
        }
        other => panic!("unexpected outcome {:?}", other),
    }
    assert_eq!(k.task_status(0), Some(TaskStatus::Ready));
    assert_eq!(k.current_task(), None);
    // The task resumes where it was interrupted.
    assert_eq!(k.trap_cx_of(0).unwrap().sepc, before.sepc);
    assert_eq!(k.run_tasks(), Some(1));
    k.trap_handler(TIMER, 0, u64::MAX);
    assert_eq!(k.run_tasks(), Some(0));
}

#[test]
fn a_system_call_resumes_after_the_calling_instruction() {
    let mut k = kernel();
    k.load_task(&program()).unwrap();
    k.run_tasks();
    let outcome = syscall(&mut k, 64, [1, 0x1007, 5]);
    match outcome {
        TrapOutcome::Output(bytes) => assert_eq!(bytes, b"world".to_vec()),
        other => panic!("unexpected outcome {:?}", other),
    }
    let cx = k.current_trap_cx().unwrap();
    assert_eq!(cx.sepc, 0x1004);
    assert_eq!(cx.x[10], 5);
    assert_eq!(cx.x[17], 64);
    assert_eq!(cx.x[2], 0x5000);
    assert_eq!(k.task_status(0), Some(TaskStatus::Running));
    // Another call moves on by another instruction.
    syscall(&mut k, 64, [1, 0x1000, 0]);
    assert_eq!(k.current_trap_cx().unwrap().sepc, 0x1008);
}

#[test]
fn writing_fails_for_other_files_and_for_memory_that_is_not_mapped() {
    let mut k = kernel();
    k.load_task(&program()).unwrap();
    k.run_tasks();
    assert!(matches!(syscall(&mut k, 64, [2, 0x1000, 5]), TrapOutcome::Resume));
    assert_eq!(k.current_trap_cx().unwrap().x[10], u64::MAX);
    assert!(matches!(syscall(&mut k, 64, [1, 0x1ffe, 5]), TrapOutcome::Resume));
    assert_eq!(k.current_trap_cx().unwrap().x[10], u64::MAX);
    assert!(matches!(syscall(&mut k, 64, [1, u64::MAX, 5]), TrapOutcome::Resume));
    assert_eq!(k.current_trap_cx().unwrap().x[10], u64::MAX);
    assert_eq!(k.current_trap_cx().unwrap().sepc, 0x100c);
}

#[test]
fn calls_that_the_kernel_does_not_serve_are_handed_on() {
    let mut k = kernel();
    k.load_task(&program()).unwrap();
    k.run_tasks();
    match syscall(&mut k, 220, [1, 2, 3]) {
        TrapOutcome::Delegated { id, args } => {
            assert_eq!(id, 220);
            assert_eq!(args, [1, 2, 3]);
        }
        other => panic!("unexpected outcome {:?}", other),
    }
    assert_eq!(k.current_trap_cx().unwrap().sepc, 0x1004);
    k.finish_syscall(77);
    let cx = k.current_trap_cx().unwrap();
    assert_eq!(cx.x[10], 77);
    assert_eq!(cx.sepc, 0x1004);
    assert_eq!(cx.x[11], 2);
}

#[test]
fn traps_that_the_kernel_cannot_handle_are_told_apart() {
    let mut k = kernel();
    // A trap while no task runs comes from the kernel itself.
    assert!(!k.can_handle(8));
    k.load_task(&program()).unwrap();
    k.run_tasks();
    for cause in [8u64, 1, 2, 5, 7, 12, 13, 15, (1 << 63) | 5] {
        assert!(k.can_handle(cause));
    }
    // A breakpoint, an external interrupt, a call from machine mode.
    for cause in [3u64, (1 << 63) | 9, 11, 0, 4, 6, 9, (1 << 63) | 1, 5 | (1 << 62)] {
        assert!(!k.can_handle(cause));
    }
    assert!(is_handled(Trap::Interrupt(Interrupt::SupervisorTimer)));
    assert!(!is_handled(Trap::Interrupt(Interrupt::SupervisorSoft)));
    assert!(!is_handled(Trap::Exception(Exception::Breakpoint)));
    // Asking changes nothing.
    assert_eq!(k.task_status(0), Some(TaskStatus::Running));
    assert_eq!(k.current_trap_cx().unwrap().sepc, 0x1000);
}

#[test]
fn ready_tasks_run_round_robin_in_the_order_of_their_arrival() {
    let mut k = kernel();
    for _ in 0..4 {
        k.load_task(&program()).unwrap();
    }
    let mut order = Vec::new();
    for _ in 0..10 {
        let task = k.run_tasks().unwrap();
        // No second task is put on the processor while one runs.
        assert_eq!(k.run_tasks(), None);
        order.push(task);
        assert!(matches!(syscall(&mut k, 124, [0, 0, 0]), TrapOutcome::Yielded(_)));
        assert_eq!(k.trap_cx_of(task).unwrap().x[10], 0);
    }
    assert_eq!(order, vec![0, 1, 2, 3, 0, 1, 2, 3, 0, 1]);
    assert_eq!(k.ready_count(), 4);
}

#[test]
fn a_task_taken_off_the_processor_keeps_its_state() {
    let mut k = kernel();
    k.load_task(&program()).unwrap();
    k.run_tasks();
    assert_eq!(k.take_current_task(), Some(0));
    assert_eq!(k.current_task(), None);
    assert_eq!(k.task_status(0), Some(TaskStatus::Running));
    assert_eq!(k.ready_count(), 0);
}

#[test]
fn images_that_cannot_be_loaded_add_no_task() {
    let mut k = kernel();
    assert_eq!(k.load_task(&[0u8; 10]), Err(LoadError::Image(ImageError::TooShort)));
    assert_eq!(k.load_task(&[0u8; 100]), Err(LoadError::Image(ImageError::BadHeader)));
    assert_eq!(
        k.load_task(&image(0x1000, 0x1000, 0x1000, 5, &[1u8; 0x1001])),
        Err(LoadError::BadSegment(0))
    );
    assert_eq!(k.task_count(), 0);
    assert_eq!(k.ready_count(), 0);
    // A segment that is larger than what is left of memory.
    assert_eq!(
        k.load_task(&image(0x1000, 0x1000, 0x80_0000, 6, &[])),
        Err(LoadError::Mapping(MapError::OutOfFrames))
    );
    assert_eq!(k.task_count(), 0);
    assert_eq!(k.load_task(&program()), Ok(0));
    assert_eq!(k.task_count(), 1);
}

#[test]
fn the_kernel_sees_the_frames_of_its_tasks_at_their_addresses() {
    let mut k = kernel();
    k.load_task(&program()).unwrap();
    let token = k.trap_cx_of(0).unwrap().kernel_satp;
    // The kernel's table names a root in the pool.
    let root = token & ((1 << 44) - 1);
    assert!(root >= 0x80206 && root < 0x80800);
    assert_eq!(token >> 60, 8);
    let _ = VirtPageNum(0);
}

fn frames_in_use(k: &Kernel) -> Vec<u64> {
    (0x80000u64..0x80800).filter(|p| k.allocator().allocated(PhysPageNum(*p))).collect()
}

#[test]
fn a_task_that_ends_gives_its_frames_back() {
    let mut k = kernel();
    let before = frames_in_use(&k);
    let parent = k.load_task(&program()).unwrap();
    let with_parent = frames_in_use(&k);
    let child = k.load_task(&program()).unwrap();
    let with_both = frames_in_use(&k);
    assert!(before.len() < with_parent.len() && with_parent.len() < with_both.len());
    let frame = k.trap_cx_frame(child).unwrap();
    assert!(k.allocator().allocated(frame));
    k.run_tasks();
    k.suspend_current_and_run_next();
    assert_eq!(k.run_tasks(), Some(child));
    assert!(k.trap_cx_of(child).is_some());
    assert!(matches!(syscall(&mut k, 93, [5, 0, 0]), TrapOutcome::Exited(1, 5)));
    // What the child had is free; the kernel stack stays with the kernel.
    assert!(!k.allocator().allocated(frame));
    assert!(k.trap_cx_of(child).is_none());
    let after = frames_in_use(&k);
    assert!(with_parent.iter().all(|p| after.contains(p)));
    assert_eq!(with_both.len() - after.len(), 4 + 5);
    // The parent is as it was.
    assert_eq!(k.run_tasks(), Some(parent));
    assert_eq!(k.read_user(parent, 0x1000, 12), Some(b"hello, world".to_vec()));
    assert_eq!(k.current_trap_cx().unwrap().sepc, 0x1000);
    // A task that is killed gives its frames back too.
    let third = k.load_task(&program()).unwrap();
    k.suspend_current_and_run_next();
    assert_eq!(k.run_tasks(), Some(third));
    let in_use = frames_in_use(&k).len();
    assert!(matches!(k.trap_handler(2, 0, 0), TrapOutcome::Killed { task: 2, code: -3, .. }));
    assert_eq!(in_use - frames_in_use(&k).len(), 4 + 5);
    assert_eq!(k.run_tasks(), Some(parent));
}

#[test]
fn a_task_that_cannot_be_loaded_takes_no_frame() {
    let mut k = kernel();
    let before = frames_in_use(&k);
    assert!(k.load_task(&[0u8; 64]).is_err());
    assert!(k.load_task(&image(0x1000, 0x7f_ffff_e000, 0x1000, 5, b"x")).is_err());
    assert_eq!(frames_in_use(&k), before);
    assert_eq!(k.task_count(), 0);
}

#[test]
fn a_page_of_a_task_can_be_taken_in_as_the_task_left_it() {
    let mut k = kernel();
    let a = k.load_task(&program()).unwrap();
    let b = k.load_task(&program()).unwrap();
    k.run_tasks();
    // The areas of a task: the segment, the stack, the trap context.
    assert_eq!(k.task_area_count(a), 3);
    assert_eq!(k.task_area_count(7), 0);
    assert_eq!(k.task_area_bounds(a, 0), Some((VirtPageNum(1), VirtPageNum(2))));
    assert_eq!(k.task_area_bounds(a, 1), Some((VirtPageNum(3), VirtPageNum(5))));
    assert_eq!(k.task_area_bounds(a, 2), Some((VirtPageNum(0x7ff_fffe), VirtPageNum(0x7ff_ffff))));
    assert_eq!(k.task_area_bounds(a, 3), None);
    // The guard page and the trampoline page have no frame of the task.
    assert_eq!(k.frame_of_page(a, VirtPageNum(2)), None);
    assert_eq!(k.frame_of_page(a, VirtPageNum(0x7ff_ffff)), None);
    assert_eq!(k.frame_of_page(7, VirtPageNum(1)), None);
    let frame = k.frame_of_page(a, VirtPageNum(4)).unwrap();
    assert_ne!(Some(frame), k.frame_of_page(b, VirtPageNum(4)));
    assert_eq!(k.frame_of_page(a, VirtPageNum(0x7ff_fffe)), k.trap_cx_frame(a));
    // What the task wrote to its stack.
    let mut words = vec![0u64; 512];
    words[0] = 0x0807_0605_0403_0201;
    words[511] = u64::MAX;
    assert!(!k.store_user_page(a, VirtPageNum(2), &words));
    assert!(!k.store_user_page(a, VirtPageNum(4), &words[..511].to_vec()));
    assert!(k.store_user_page(a, VirtPageNum(4), &words));
    assert_eq!(k.read_user(a, 0x4000, 9), Some(vec![1, 2, 3, 4, 5, 6, 7, 8, 0]));
    assert_eq!(k.read_user(a, 0x4ff8, 8), Some(vec![0xff; 8]));
    // Nothing else changed.
    assert_eq!(k.read_user(a, 0x1000, 5), Some(b"hello".to_vec()));
    assert_eq!(k.read_user(b, 0x4000, 8), Some(vec![0; 8]));
    assert_eq!(k.current_trap_cx().unwrap().sepc, 0x1000);
    // A task that has ended has no pages.
    k.exit_current_and_run_next(0);
    assert_eq!(k.frame_of_page(a, VirtPageNum(4)), None);
    assert!(!k.store_user_page(a, VirtPageNum(4), &words));
}
