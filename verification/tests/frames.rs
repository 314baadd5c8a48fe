use rv_kernel::address::PhysPageNum;
use rv_kernel::frame_allocator::{
    frame_alloc, frame_dealloc, init_frame_allocator, FrameTracker, StackFrameAllocator,
};
use rv_kernel::memory::PhysMemory;

fn pool(first: u64, last: u64) -> (StackFrameAllocator, PhysMemory) {
    let mem = PhysMemory::new(PhysPageNum(first), (last - first) as usize);
    let mut allocator = StackFrameAllocator::new();
    allocator.init(PhysPageNum(first), PhysPageNum(last));
    (allocator, mem)
}

#[test]
fn frames_come_from_the_cursor_in_order() {
    let (mut allocator, _mem) = pool(100, 103);
    assert_eq!(allocator.alloc_frame(), Some(PhysPageNum(100)));
    assert_eq!(allocator.alloc_frame(), Some(PhysPageNum(101)));
    assert_eq!(allocator.alloc_frame(), Some(PhysPageNum(102)));
    assert_eq!(allocator.alloc_frame(), None);
    assert_eq!(allocator.alloc_frame(), None);
}

#[test]
fn a_frame_given_back_is_handed_out_next() {
    let (mut allocator, _mem) = pool(100, 110);
    let a = allocator.alloc_frame().unwrap();
    let b = allocator.alloc_frame().unwrap();
    let c = allocator.alloc_frame().unwrap();
    assert!(allocator.allocated(a) && allocator.allocated(b) && allocator.allocated(c));
    allocator.dealloc(a);
    assert!(!allocator.allocated(a));
    allocator.dealloc(c);
    // The frame given back last comes first.
    assert_eq!(allocator.alloc_frame(), Some(c));
    assert_eq!(allocator.alloc_frame(), Some(a));
    assert_eq!(allocator.alloc_frame(), Some(PhysPageNum(103)));
    assert!(allocator.allocated(b));
}

#[test]
fn frames_below_the_pool_and_free_frames_are_not_allocated() {
    let (mut allocator, _mem) = pool(100, 110);
    assert!(!allocator.allocated(PhysPageNum(99)));
    assert!(!allocator.allocated(PhysPageNum(100)));
    let a = allocator.alloc_frame().unwrap();
    assert!(allocator.allocated(a));
    assert!(!allocator.allocated(PhysPageNum(101)));
    assert!(!allocator.allocated(PhysPageNum(110)));
}

#[test]
fn no_frame_is_owned_twice_and_none_is_lost() {
    let (mut allocator, mut mem) = pool(0x80000, 0x80010);
    let mut first: Vec<FrameTracker> = Vec::new();
    for _ in 0..7 {
        first.push(frame_alloc(&mut allocator, &mut mem).unwrap());
    }
    let mut numbers: Vec<u64> = first.iter().map(|f| f.ppn.0).collect();
    numbers.sort();
    numbers.dedup();
    assert_eq!(numbers.len(), 7);
    // Give them back in another order.
    let order = [3usize, 0, 6, 1, 5, 2, 4];
    let mut slots: Vec<Option<FrameTracker>> = first.into_iter().map(Some).collect();
    for i in order {
        frame_dealloc(&mut allocator, slots[i].take().unwrap());
    }
    let mut second: Vec<u64> = Vec::new();
    for _ in 0..7 {
        second.push(frame_alloc(&mut allocator, &mut mem).unwrap().ppn.0);
    }
    second.sort();
    assert_eq!(second, numbers);
}

#[test]
fn frame_allocator_test() {
    let (mut allocator, mut mem) = pool(0x80000, 0x80100);
    let mut v: Vec<FrameTracker> = Vec::new();
    for _ in 0..5 {
        v.push(frame_alloc(&mut allocator, &mut mem).unwrap());
    }
    let first: Vec<u64> = v.iter().map(|f| f.ppn.0).collect();
    assert_eq!(first, vec![0x80000, 0x80001, 0x80002, 0x80003, 0x80004]);
    while let Some(frame) = v.pop() {
        frame_dealloc(&mut allocator, frame);
    }
    for _ in 0..5 {
        v.push(frame_alloc(&mut allocator, &mut mem).unwrap());
    }
    let second: Vec<u64> = v.iter().map(|f| f.ppn.0).collect();
    assert_eq!(second, vec![0x80000, 0x80001, 0x80002, 0x80003, 0x80004]);
}

#[test]
fn a_new_frame_is_zeroed() {
    let (mut allocator, mut mem) = pool(0x80000, 0x80004);
    let frame = frame_alloc(&mut allocator, &mut mem).unwrap();
    mem.write_word(frame.ppn, 7, 0xdead_beef);
    mem.write_byte(frame.ppn, 4095, 0xaa);
    frame_dealloc(&mut allocator, frame);
    let again = frame_alloc(&mut allocator, &mut mem).unwrap();
    assert_eq!(again.ppn, PhysPageNum(0x80000));
    assert_eq!(mem.read_word(again.ppn, 7), 0);
    assert_eq!(mem.read_byte(again.ppn, 4095), 0);
    assert!(again.ppn.get_bytes_array(&mem).iter().all(|b| *b == 0));
}

#[test]
fn tracker_new_clears_the_page() {
    let (_allocator, mut mem) = pool(0x80000, 0x80004);
    mem.write_word(PhysPageNum(0x80002), 0, 5);
    mem.write_word(PhysPageNum(0x80003), 0, 6);
    let frame = FrameTracker::new(PhysPageNum(0x80002), &mut mem);
    assert_eq!(frame.ppn, PhysPageNum(0x80002));
    assert_eq!(mem.read_word(PhysPageNum(0x80002), 0), 0);
    assert_eq!(mem.read_word(PhysPageNum(0x80003), 0), 6);
}

#[test]
fn pool_runs_from_the_end_of_the_kernel_to_the_end_of_memory() {
    let mut allocator = StackFrameAllocator::new();
    init_frame_allocator(&mut allocator, 0x8020_6001, 0x8020_9fff);
    assert_eq!(allocator.alloc_frame(), Some(PhysPageNum(0x80207)));
    assert_eq!(allocator.alloc_frame(), Some(PhysPageNum(0x80208)));
    assert_eq!(allocator.alloc_frame(), None);
}

#[test]
fn bytes_lie_in_words_lowest_first() {
    let mut mem = PhysMemory::new(PhysPageNum(10), 2);
    assert!(mem.holds(PhysPageNum(10)) && mem.holds(PhysPageNum(11)));
    assert!(!mem.holds(PhysPageNum(9)) && !mem.holds(PhysPageNum(12)));
    mem.write_word(PhysPageNum(11), 1, 0x0807_0605_0403_0201);
    for k in 0..8 {
        assert_eq!(mem.read_byte(PhysPageNum(11), 8 + k), (k + 1) as u8);
    }
    mem.write_byte(PhysPageNum(11), 10, 0xff);
    assert_eq!(mem.read_word(PhysPageNum(11), 1), 0x0807_0605_04ff_0201);
    assert_eq!(mem.read_word(PhysPageNum(11), 0), 0);
    assert_eq!(mem.read_word(PhysPageNum(10), 1), 0);
    mem.clear_page(PhysPageNum(11));
    assert_eq!(mem.read_word(PhysPageNum(11), 1), 0);
}
