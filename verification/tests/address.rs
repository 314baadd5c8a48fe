use rv_kernel::address::{
    PhysAddr, PhysPageNum, SimpleRange, SimpleRangeIterator, StepByOne, VPNRange, VirtAddr,
    VirtPageNum,
};
use rv_kernel::config::{
    kernel_stack_position, KERNEL_STACK_SIZE, PAGE_SIZE, TRAMPOLINE, TRAP_CONTEXT,
};

#[test]
fn addresses_are_masked_on_construction() {
    assert_eq!(PhysAddr::from(u64::MAX), PhysAddr(0x00ff_ffff_ffff_ffff));
    assert_eq!(VirtAddr::from(u64::MAX), VirtAddr(0x7f_ffff_ffff));
    assert_eq!(PhysPageNum::from(u64::MAX), PhysPageNum(0xfff_ffff_ffff));
    assert_eq!(VirtPageNum::from(u64::MAX), VirtPageNum(0x7ff_ffff));
    assert_eq!(PhysAddr::from(0x8020_0123), PhysAddr(0x8020_0123));
    assert_eq!(u64::from(PhysAddr(0x1234)), 0x1234);
    assert_eq!(u64::from(VirtPageNum(77)), 77);
}

#[test]
fn floor_and_ceil_round_to_pages() {
    let va = VirtAddr(0x1234);
    assert_eq!(va.floor(), VirtPageNum(1));
    assert_eq!(va.ceil(), VirtPageNum(2));
    assert_eq!(va.page_offset(), 0x234);
    assert!(!va.aligned());
    let va = VirtAddr(0x3000);
    assert_eq!(va.floor(), VirtPageNum(3));
    assert_eq!(va.ceil(), VirtPageNum(3));
    assert_eq!(va.page_offset(), 0);
    assert!(va.aligned());
    let pa = PhysAddr(0x8020_0fff);
    assert_eq!(pa.floor(), PhysPageNum(0x80200));
    assert_eq!(pa.ceil(), PhysPageNum(0x80201));
    assert_eq!(pa.page_offset(), 0xfff);
    assert!(!pa.aligned());
    assert!(PhysAddr(0).aligned());
}

#[test]
fn floor_round_trip_recovers_the_address() {
    for raw in [0u64, 1, 0xfff, 0x1000, 0x1001, 0x8020_0123, 0x00ff_ffff_ffff_ffff] {
        let pa = PhysAddr::from(raw);
        let back = PhysAddr::from(pa.floor());
        assert_eq!(back.0 + pa.page_offset(), pa.0);
    }
    for raw in [0u64, 0x7f_ffff_ffff, 0x12_3456_7890, 0x2000] {
        let va = VirtAddr::from(raw);
        let back = VirtAddr::from(va.floor());
        assert_eq!(back.0 + va.page_offset(), va.0);
    }
}

#[test]
fn ceil_round_trip_gives_the_next_page_boundary() {
    assert_eq!(PhysAddr::from(PhysAddr(0x1001).ceil()), PhysAddr(0x2000));
    assert_eq!(PhysAddr::from(PhysAddr(0x1fff).ceil()), PhysAddr(0x2000));
    assert_eq!(PhysAddr::from(PhysAddr(0x2000).ceil()), PhysAddr(0x2000));
    assert_eq!(VirtAddr::from(VirtAddr(1).ceil()), VirtAddr(0x1000));
    assert_eq!(VirtAddr::from(VirtAddr(0).ceil()), VirtAddr(0));
}

#[test]
fn page_number_of_an_aligned_address() {
    assert_eq!(VirtPageNum::from_addr(VirtAddr(0x5000)), VirtPageNum(5));
    assert_eq!(PhysPageNum::from_addr(PhysAddr(0x8020_1000)), PhysPageNum(0x80201));
    assert_eq!(VirtPageNum::from_addr(VirtAddr::from(TRAMPOLINE)), VirtPageNum(0x7ff_ffff));
    assert_eq!(VirtPageNum::from_addr(VirtAddr::from(TRAP_CONTEXT)), VirtPageNum(0x7ff_fffe));
}

#[test]
fn indexes_split_a_page_number_into_three_levels() {
    assert_eq!(VirtPageNum(0).indexes(), [0, 0, 0]);
    assert_eq!(VirtPageNum(1).indexes(), [0, 0, 1]);
    assert_eq!(VirtPageNum(512).indexes(), [0, 1, 0]);
    assert_eq!(VirtPageNum(512 * 512).indexes(), [1, 0, 0]);
    assert_eq!(VirtPageNum(0x7ff_ffff).indexes(), [511, 511, 511]);
    assert_eq!(VirtPageNum((3 << 18) | (5 << 9) | 7).indexes(), [3, 5, 7]);
    // Only the low 27 bits count.
    assert_eq!(VirtPageNum((1 << 27) | 9).indexes(), [0, 0, 9]);
}

#[test]
fn step_moves_to_the_next_page() {
    let mut vpn = VirtPageNum(41);
    vpn.step();
    assert_eq!(vpn, VirtPageNum(42));
    assert!(vpn.meets(&VirtPageNum(42)));
    assert!(!vpn.meets(&VirtPageNum(41)));
}

#[test]
fn range_yields_each_page_once_in_order() {
    let range: VPNRange = SimpleRange::new(VirtPageNum(3), VirtPageNum(6));
    assert_eq!(range.get_start(), VirtPageNum(3));
    assert_eq!(range.get_end(), VirtPageNum(6));
    let mut it = range.into_iter();
    assert_eq!(it.next(), Some(VirtPageNum(3)));
    assert_eq!(it.next(), Some(VirtPageNum(4)));
    assert_eq!(it.next(), Some(VirtPageNum(5)));
    assert_eq!(it.next(), None);
    assert_eq!(it.next(), None);
}

#[test]
fn empty_range_yields_nothing() {
    let mut it = SimpleRangeIterator::new(VirtPageNum(9), VirtPageNum(9));
    assert_eq!(it.next(), None);
}

#[test]
fn kernel_stacks_lie_below_the_trampoline_with_guard_pages() {
    assert_eq!(
        kernel_stack_position(0),
        (TRAMPOLINE - KERNEL_STACK_SIZE, TRAMPOLINE)
    );
    let (bottom1, top1) = kernel_stack_position(1);
    assert_eq!(top1, TRAMPOLINE - KERNEL_STACK_SIZE - PAGE_SIZE);
    assert_eq!(bottom1, top1 - KERNEL_STACK_SIZE);
    let (bottom0, _) = kernel_stack_position(0);
    // One guard page between two stacks.
    assert_eq!(bottom0 - top1, PAGE_SIZE);
    assert_eq!(kernel_stack_position(3).1, 0xffff_ffff_ffff_f000 - 3 * 0x3000);
}
