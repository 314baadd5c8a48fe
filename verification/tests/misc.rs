use rv_kernel::sbi::{console_putchar, set_timer, shutdown, SbiCall};
use rv_kernel::sync::UPSafeCell;
use rv_kernel::syscall::{sys_exit, sys_write, SyscallRequest};
use rv_kernel::task::context::TaskContext;
use rv_kernel::task::manager::{add_task, fetch_task, TaskManager};
use rv_kernel::task::processor::Processor;
use rv_kernel::timer::{get_time_us, set_next_trigger};
use rv_kernel::trap::context::TrapContext;
use rv_kernel::trap::{classify, trap_return, Exception, Interrupt, Trap};

#[test]
fn firmware_calls_carry_their_service_number() {
    assert_eq!(console_putchar(65), SbiCall { which: 1, arg0: 65, arg1: 0, arg2: 0 });
    assert_eq!(shutdown(), SbiCall { which: 8, arg0: 0, arg1: 0, arg2: 0 });
    assert_eq!(set_timer(1234), SbiCall { which: 0, arg0: 1234, arg1: 0, arg2: 0 });
}

#[test]
fn the_next_trigger_is_one_slice_ahead() {
    assert_eq!(set_next_trigger(1000), SbiCall { which: 0, arg0: 1000 + 125_000, arg1: 0, arg2: 0 });
    assert_eq!(set_next_trigger(u64::MAX).arg0, 124_999);
    assert_eq!(get_time_us(12_500_000), 1_041_666);
    assert_eq!(get_time_us(24), 2);
    assert_eq!(get_time_us(11), 0);
}

#[test]
fn user_calls_carry_their_number_and_arguments() {
    assert_eq!(sys_write(1, 0x1000, 5), SyscallRequest { id: 64, arg0: 1, arg1: 0x1000, arg2: 5 });
    assert_eq!(sys_exit(7), SyscallRequest { id: 93, arg0: 7, arg1: 0, arg2: 0 });
    assert_eq!(sys_exit(-1).arg0, u64::MAX);
    assert_eq!(sys_exit(-3).arg0, 0xffff_ffff_ffff_fffd);
    assert_eq!(sys_exit(i32::MIN).arg0, 0xffff_ffff_8000_0000);
    assert_eq!(sys_exit(i32::MAX).arg0, 0x7fff_ffff);
}

#[test]
fn a_cell_hands_its_content_out_once() {
    let mut cell = UPSafeCell::new(41u32);
    assert!(!cell.held());
    let value = cell.exclusive_access();
    assert_eq!(value, 41);
    assert!(cell.held());
    assert_eq!(cell.try_exclusive_access(), None);
    cell.release(value + 1);
    assert!(!cell.held());
    assert_eq!(cell.try_exclusive_access(), Some(42));
    assert!(cell.held());
}

#[test]
fn task_contexts_start_empty_or_at_the_return_to_user_mode() {
    let zero = TaskContext::zero_init();
    assert_eq!((zero.ra(), zero.sp()), (0, 0));
    let cx = TaskContext::goto_trap_return(0xffff_ffff_ffff_f000, 0x8020_1234);
    assert_eq!(cx.ra(), 0x8020_1234);
    assert_eq!(cx.sp(), 0xffff_ffff_ffff_f000);
}

#[test]
fn a_first_trap_context_starts_in_user_mode_at_the_entry() {
    // The previous mode is supervisor mode, and interrupts were enabled.
    let sstatus = 0x100 | 0x20 | 0x2;
    let cx = TrapContext::app_init_context(0x1000, 0x5000, 0x8000_0000_0008_0206, 0xffff_f000, 0x8020_0040, sstatus);
    assert_eq!(cx.sepc, 0x1000);
    assert_eq!(cx.x[2], 0x5000);
    assert!(cx.x.iter().enumerate().all(|(i, v)| i == 2 || *v == 0));
    assert_eq!(cx.kernel_satp, 0x8000_0000_0008_0206);
    assert_eq!(cx.kernel_sp, 0xffff_f000);
    assert_eq!(cx.trap_handler, 0x8020_0040);
    // The bit of the previous mode is cleared, the others are kept.
    assert_eq!(cx.sstatus, 0x22);
    let mut cx = cx;
    cx.set_sp(0x7000);
    assert_eq!(cx.x[2], 0x7000);
    assert_eq!(cx.sepc, 0x1000);
}

#[test]
fn status_bits_that_the_register_does_not_have_are_dropped() {
    let cx = TrapContext::app_init_context(0, 0, 0, 0, 0, u64::MAX);
    assert_eq!(cx.sstatus, 0x8000_0003_000d_e662);
}

#[test]
fn causes_are_told_apart() {
    assert_eq!(classify(8), Trap::Exception(Exception::UserEnvCall));
    assert_eq!(classify(2), Trap::Exception(Exception::IllegalInstruction));
    assert_eq!(classify(1), Trap::Exception(Exception::InstructionFault));
    assert_eq!(classify(5), Trap::Exception(Exception::LoadFault));
    assert_eq!(classify(7), Trap::Exception(Exception::StoreFault));
    assert_eq!(classify(12), Trap::Exception(Exception::InstructionPageFault));
    assert_eq!(classify(13), Trap::Exception(Exception::LoadPageFault));
    assert_eq!(classify(15), Trap::Exception(Exception::StorePageFault));
    assert_eq!(classify(0), Trap::Exception(Exception::InstructionMisaligned));
    assert_eq!(classify(3), Trap::Exception(Exception::Breakpoint));
    assert_eq!(classify(4), Trap::Exception(Exception::LoadMisaligned));
    assert_eq!(classify(6), Trap::Exception(Exception::StoreMisaligned));
    assert_eq!(classify(9), Trap::Exception(Exception::SupervisorEnvCall));
    assert_eq!(classify(10), Trap::Exception(Exception::Unknown));
    assert_eq!(classify(0x7fff_ffff_ffff_ffff), Trap::Exception(Exception::Unknown));
    let interrupt = 1u64 << 63;
    assert_eq!(classify(interrupt | 5), Trap::Interrupt(Interrupt::SupervisorTimer));
    assert_eq!(classify(interrupt | 1), Trap::Interrupt(Interrupt::SupervisorSoft));
    assert_eq!(classify(interrupt | 9), Trap::Interrupt(Interrupt::SupervisorExternal));
    assert_eq!(classify(interrupt | 8), Trap::Interrupt(Interrupt::Unknown));
    assert_eq!(classify(interrupt), Trap::Interrupt(Interrupt::Unknown));
}

#[test]
fn the_return_to_user_mode_goes_through_the_trampoline() {
    let r = trap_return(0x8000_0000_0008_0300, 0x8020_1000, 0x8020_1066);
    assert_eq!(r.trap_vector, 0xffff_ffff_ffff_f000);
    assert_eq!(r.trap_cx_ptr, 0xffff_ffff_ffff_e000);
    assert_eq!(r.user_satp, 0x8000_0000_0008_0300);
    assert_eq!(r.restore_va, 0xffff_ffff_ffff_f066);
}

#[test]
fn the_ready_queue_is_first_in_first_out() {
    let mut manager = TaskManager::new();
    assert_eq!(manager.fetch(), None);
    manager.add(4);
    manager.add(2);
    add_task(&mut manager, 9);
    assert_eq!(manager.len(), 3);
    assert_eq!(manager.fetch(), Some(4));
    assert_eq!(fetch_task(&mut manager), Some(2));
    manager.add(4);
    assert_eq!(manager.fetch(), Some(9));
    assert_eq!(manager.fetch(), Some(4));
    assert_eq!(manager.fetch(), None);
}

#[test]
fn yielding_tasks_run_round_robin() {
    let mut manager = TaskManager::new();
    for task in [10, 11, 12] {
        manager.add(task);
    }
    let mut order = Vec::new();
    for _ in 0..7 {
        let task = manager.fetch().unwrap();
        order.push(task);
        manager.add(task);
    }
    assert_eq!(order, vec![10, 11, 12, 10, 11, 12, 10]);
}

#[test]
fn the_processor_holds_at_most_one_task() {
    let mut processor = Processor::new();
    assert_eq!(processor.current(), None);
    assert_eq!(processor.take_current(), None);
    processor.set_current(3);
    assert_eq!(processor.current(), Some(3));
    assert_eq!(processor.take_current(), Some(3));
    assert_eq!(processor.current(), None);
    assert_eq!(processor.get_idle_task_cx().ra(), 0);
}
