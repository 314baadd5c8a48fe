use rv_kernel::address::{PhysPageNum, VirtAddr, VirtPageNum};
use rv_kernel::memory_set::{MapArea, MapPermission, MapType};
use rv_kernel::frame_allocator::StackFrameAllocator;
use rv_kernel::memory::PhysMemory;
use rv_kernel::page_table::{
    read_chunks, translated_byte_buffer, ByteChunk, MapError, PTEFlags, PageTable,
    PageTableEntry,
};

fn pool(first: u64, pages: usize) -> (StackFrameAllocator, PhysMemory) {
    let mem = PhysMemory::new(PhysPageNum(first), pages);
    let mut allocator = StackFrameAllocator::new();
    allocator.init(PhysPageNum(first), PhysPageNum(first + pages as u64));
    (allocator, mem)
}

#[test]
fn flags_are_single_bits() {
    assert_eq!(PTEFlags::V().bits(), 1);
    assert_eq!(PTEFlags::R().bits(), 2);
    assert_eq!(PTEFlags::W().bits(), 4);
    assert_eq!(PTEFlags::X().bits(), 8);
    assert_eq!(PTEFlags::U().bits(), 16);
    assert_eq!(PTEFlags::G().bits(), 32);
    assert_eq!(PTEFlags::A().bits(), 64);
    assert_eq!(PTEFlags::D().bits(), 128);
    let rx = PTEFlags::R().union(PTEFlags::X());
    assert_eq!(rx.bits(), 0x0a);
    assert!(rx.contains(PTEFlags::R()));
    assert!(!rx.contains(PTEFlags::W()));
    assert_eq!(rx.intersection(PTEFlags::R()), PTEFlags::R());
    assert!(rx.intersection(PTEFlags::W()).is_empty());
    assert!(PTEFlags::empty().is_empty());
    assert_eq!(PTEFlags::from_bits(0x1f).unwrap().bits(), 0x1f);
}

#[test]
fn an_entry_packs_page_number_and_flags() {
    let e = PageTableEntry::new(PhysPageNum(0x80123), PTEFlags::R().union(PTEFlags::V()));
    assert_eq!(e.bits, (0x80123 << 10) | 3);
    assert_eq!(e.ppn(), PhysPageNum(0x80123));
    assert_eq!(e.flags().bits(), 3);
    assert!(e.is_valid());
    assert!(e.readable());
    assert!(!e.writable());
    assert!(!e.executable());
    let e = PageTableEntry::new(PhysPageNum(1), PTEFlags::W().union(PTEFlags::X()));
    assert!(!e.is_valid());
    assert!(!e.readable());
    assert!(e.writable());
    assert!(e.executable());
    assert_eq!(PageTableEntry::empty().bits, 0);
    assert!(!PageTableEntry::empty().is_valid());
    // The page number is 44 bits wide.
    let e = PageTableEntry { bits: u64::MAX };
    assert_eq!(e.ppn(), PhysPageNum(0xfff_ffff_ffff));
}

#[test]
fn map_then_translate_gives_the_mapping_with_the_valid_flag() {
    let (mut allocator, mut mem) = pool(0x80000, 16);
    let mut table = PageTable::new(&mut allocator, &mut mem).unwrap();
    let vpn = VirtPageNum(0x12345);
    assert_eq!(table.translate(vpn, &mem), None);
    let flags = PTEFlags::R().union(PTEFlags::W());
    assert_eq!(table.map(vpn, PhysPageNum(0x9999), flags, &mut allocator, &mut mem), Ok(()));
    let entry = table.translate(vpn, &mem).unwrap();
    assert_eq!(entry.ppn(), PhysPageNum(0x9999));
    assert_eq!(entry.flags().bits(), flags.bits() | 1);
    assert_eq!(entry, PageTableEntry::new(PhysPageNum(0x9999), flags.union(PTEFlags::V())));
    // The neighbours are not mapped.
    assert_eq!(table.translate(VirtPageNum(0x12344), &mem), None);
    assert_eq!(table.translate(VirtPageNum(0x12346), &mem), None);
}

#[test]
fn unmap_then_translate_gives_nothing() {
    let (mut allocator, mut mem) = pool(0x80000, 16);
    let mut table = PageTable::new(&mut allocator, &mut mem).unwrap();
    let a = VirtPageNum(7);
    let b = VirtPageNum(8);
    table.map(a, PhysPageNum(70), PTEFlags::R(), &mut allocator, &mut mem).unwrap();
    table.map(b, PhysPageNum(80), PTEFlags::R(), &mut allocator, &mut mem).unwrap();
    table.unmap(a, &mut mem);
    assert_eq!(table.translate(a, &mem), None);
    assert_eq!(table.translate(b, &mem).unwrap().ppn(), PhysPageNum(80));
    // The page can be mapped again after it was unmapped.
    assert_eq!(table.map(a, PhysPageNum(71), PTEFlags::X(), &mut allocator, &mut mem), Ok(()));
    assert_eq!(table.translate(a, &mem).unwrap().ppn(), PhysPageNum(71));
}

#[test]
fn mapping_a_page_twice_is_rejected() {
    let (mut allocator, mut mem) = pool(0x80000, 16);
    let mut table = PageTable::new(&mut allocator, &mut mem).unwrap();
    let vpn = VirtPageNum(0x7ff_ffff);
    assert_eq!(table.translate(vpn, &mem), None);
    assert_eq!(table.map(vpn, PhysPageNum(1), PTEFlags::R(), &mut allocator, &mut mem), Ok(()));
    // The page is mapped now: an area that wants it is turned away.
    assert!(table.translate(vpn, &mem).is_some());
    let mut area =
        MapArea::new(VirtAddr(vpn.0 * 4096), VirtAddr(vpn.0 * 4096 + 1), MapType::Identical, MapPermission::W());
    assert_eq!(
        area.map_one(&mut table, vpn, &mut allocator, &mut mem),
        Err(MapError::AlreadyMapped)
    );
    // The first mapping stands.
    assert_eq!(table.translate(vpn, &mem).unwrap().ppn(), PhysPageNum(1));
    assert_eq!(table.translate(vpn, &mem).unwrap().flags().bits(), 0x03);
}

#[test]
fn unmapping_a_page_that_is_not_mapped_is_rejected() {
    let (mut allocator, mut mem) = pool(0x80000, 16);
    let mut table = PageTable::new(&mut allocator, &mut mem).unwrap();
    let mut area = MapArea::new(VirtAddr(5 * 4096), VirtAddr(7 * 4096), MapType::Identical, MapPermission::R());
    assert_eq!(
        area.unmap_one(&mut table, VirtPageNum(5), &mut allocator, &mut mem),
        Err(MapError::NotMapped)
    );
    assert_eq!(area.map_one(&mut table, VirtPageNum(5), &mut allocator, &mut mem), Ok(()));
    // Same third-level node, another slot.
    assert_eq!(
        area.unmap_one(&mut table, VirtPageNum(6), &mut allocator, &mut mem),
        Err(MapError::NotMapped)
    );
    assert_eq!(area.unmap_one(&mut table, VirtPageNum(5), &mut allocator, &mut mem), Ok(()));
    assert_eq!(
        area.unmap_one(&mut table, VirtPageNum(5), &mut allocator, &mut mem),
        Err(MapError::NotMapped)
    );
}

#[test]
fn an_unmapped_entry_is_all_zeros_and_inner_entries_are_valid_only() {
    let (mut allocator, mut mem) = pool(0x80000, 16);
    let mut table = PageTable::new(&mut allocator, &mut mem).unwrap();
    let vpn = VirtPageNum((3 << 18) | (4 << 9) | 5);
    table.map(vpn, PhysPageNum(0x77), PTEFlags::R().union(PTEFlags::W()), &mut allocator, &mut mem).unwrap();
    let root = PhysPageNum(0x80000);
    let e0 = root.get_pte_array(&mem)[3];
    assert_eq!(e0.flags().bits(), 0x01);
    let e1 = e0.ppn().get_pte_array(&mem)[4];
    assert_eq!(e1.flags().bits(), 0x01);
    let leaf = e1.ppn().get_pte_array(&mem)[5];
    assert_eq!((leaf.ppn(), leaf.flags().bits()), (PhysPageNum(0x77), 0x07));
    table.unmap(vpn, &mut mem);
    assert_eq!(e1.ppn().get_pte_array(&mem)[5].bits, 0);
    assert_eq!(table.translate(vpn, &mem), None);
}

#[test]
fn the_table_grows_by_one_node_per_missing_level() {
    let (mut allocator, mut mem) = pool(0x80000, 16);
    let mut table = PageTable::new(&mut allocator, &mut mem).unwrap();
    // The root took the first frame.
    assert!(allocator.allocated(PhysPageNum(0x80000)));
    assert!(!allocator.allocated(PhysPageNum(0x80001)));
    table.map(VirtPageNum(0), PhysPageNum(1), PTEFlags::R(), &mut allocator, &mut mem).unwrap();
    assert!(allocator.allocated(PhysPageNum(0x80002)));
    assert!(!allocator.allocated(PhysPageNum(0x80003)));
    // Same nodes.
    table.map(VirtPageNum(1), PhysPageNum(1), PTEFlags::R(), &mut allocator, &mut mem).unwrap();
    assert!(!allocator.allocated(PhysPageNum(0x80003)));
    // A new third-level node.
    table.map(VirtPageNum(512), PhysPageNum(1), PTEFlags::R(), &mut allocator, &mut mem).unwrap();
    assert!(allocator.allocated(PhysPageNum(0x80003)));
    assert!(!allocator.allocated(PhysPageNum(0x80004)));
    // A new second-level node and a new third-level node.
    table.map(VirtPageNum(1 << 18), PhysPageNum(1), PTEFlags::R(), &mut allocator, &mut mem).unwrap();
    assert!(allocator.allocated(PhysPageNum(0x80005)));
    assert!(!allocator.allocated(PhysPageNum(0x80006)));
}

#[test]
fn mapping_fails_when_the_frames_run_out() {
    let (mut allocator, mut mem) = pool(0x80000, 2);
    let mut table = PageTable::new(&mut allocator, &mut mem).unwrap();
    assert_eq!(
        table.map(VirtPageNum(3), PhysPageNum(1), PTEFlags::R(), &mut allocator, &mut mem),
        Err(MapError::OutOfFrames)
    );
    assert_eq!(table.translate(VirtPageNum(3), &mem), None);
    let (mut allocator, mut mem) = pool(0x80000, 0);
    assert!(PageTable::new(&mut allocator, &mut mem).is_none());
}

#[test]
fn the_token_names_the_root_with_the_mode() {
    let (mut allocator, mut mem) = pool(0x80000, 4);
    let mut table = PageTable::new(&mut allocator, &mut mem).unwrap();
    assert_eq!(table.token(), (8u64 << 60) | 0x80000);
    table.map(VirtPageNum(9), PhysPageNum(0x55), PTEFlags::R(), &mut allocator, &mut mem).unwrap();
    let view = PageTable::from_token(table.token());
    assert_eq!(view.token(), table.token());
    assert_eq!(view.translate(VirtPageNum(9), &mem).unwrap().ppn(), PhysPageNum(0x55));
    assert_eq!(view.translate(VirtPageNum(10), &mem), None);
}

#[test]
fn the_entries_of_a_node_can_be_read_as_an_array() {
    let (mut allocator, mut mem) = pool(0x80000, 4);
    let mut table = PageTable::new(&mut allocator, &mut mem).unwrap();
    table.map(VirtPageNum(5 << 18), PhysPageNum(0x55), PTEFlags::R(), &mut allocator, &mut mem).unwrap();
    let root = PhysPageNum(0x80000).get_pte_array(&mem);
    assert_eq!(root.len(), 512);
    assert!(root[5].is_valid());
    assert_eq!(root[5].ppn(), PhysPageNum(0x80001));
    assert_eq!(root[5].flags().bits(), 1);
    assert!(root.iter().enumerate().all(|(i, e)| i == 5 || !e.is_valid()));
}

#[test]
fn a_buffer_is_split_at_page_boundaries() {
    let (mut allocator, mut mem) = pool(0x80000, 16);
    let mut table = PageTable::new(&mut allocator, &mut mem).unwrap();
    let flags = PTEFlags::R().union(PTEFlags::U());
    table.map(VirtPageNum(1), PhysPageNum(0x8000a), flags, &mut allocator, &mut mem).unwrap();
    table.map(VirtPageNum(2), PhysPageNum(0x80008), flags, &mut allocator, &mut mem).unwrap();
    table.map(VirtPageNum(3), PhysPageNum(0x80009), flags, &mut allocator, &mut mem).unwrap();
    let chunks = translated_byte_buffer(table.token(), 0x1ffe, 0x1004, &mem).unwrap();
    assert_eq!(
        chunks,
        vec![
            ByteChunk { ppn: PhysPageNum(0x8000a), start: 0xffe, end: 4096 },
            ByteChunk { ppn: PhysPageNum(0x80008), start: 0, end: 4096 },
            ByteChunk { ppn: PhysPageNum(0x80009), start: 0, end: 2 },
        ]
    );
    // Within one page.
    let chunks = translated_byte_buffer(table.token(), 0x2010, 0x20, &mem).unwrap();
    assert_eq!(chunks, vec![ByteChunk { ppn: PhysPageNum(0x80008), start: 0x10, end: 0x30 }]);
    // Up to the end of a page.
    let chunks = translated_byte_buffer(table.token(), 0x2ff0, 0x10, &mem).unwrap();
    assert_eq!(chunks, vec![ByteChunk { ppn: PhysPageNum(0x80008), start: 0xff0, end: 4096 }]);
    // An empty buffer has no chunks.
    assert_eq!(translated_byte_buffer(table.token(), 0x2000, 0, &mem), Some(vec![]));
    // A page that is not mapped.
    assert_eq!(translated_byte_buffer(table.token(), 0x3ff0, 0x20, &mem), None);
}

#[test]
fn the_bytes_of_a_buffer_are_read_in_order() {
    let (mut allocator, mut mem) = pool(0x80000, 16);
    let mut table = PageTable::new(&mut allocator, &mut mem).unwrap();
    table.map(VirtPageNum(1), PhysPageNum(0x8000a), PTEFlags::R(), &mut allocator, &mut mem).unwrap();
    table.map(VirtPageNum(2), PhysPageNum(0x80008), PTEFlags::R(), &mut allocator, &mut mem).unwrap();
    mem.write_byte(PhysPageNum(0x8000a), 4094, b'h');
    mem.write_byte(PhysPageNum(0x8000a), 4095, b'e');
    mem.write_byte(PhysPageNum(0x80008), 0, b'y');
    let chunks = translated_byte_buffer(table.token(), 0x1ffe, 3, &mem).unwrap();
    assert_eq!(read_chunks(&chunks, &mem), b"hey".to_vec());
}
