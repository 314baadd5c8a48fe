use rv_kernel::address::{PhysPageNum, VirtAddr, VirtPageNum};
use rv_kernel::frame_allocator::StackFrameAllocator;
use rv_kernel::image::{can_read_entry, load_image, ImageError, ImageHeader, SegmentHeader};
use rv_kernel::memory::PhysMemory;
use rv_kernel::memory_set::{
    KernelLayout, LoadError, MapArea, MapPermission, MapType, MemorySet,
};
use rv_kernel::page_table::{MapError, PTEFlags, PageTable};

fn pool(first: u64, pages: usize) -> (StackFrameAllocator, PhysMemory) {
    let mem = PhysMemory::new(PhysPageNum(first), pages);
    let mut allocator = StackFrameAllocator::new();
    allocator.init(PhysPageNum(first), PhysPageNum(first + pages as u64));
    (allocator, mem)
}

/// One loadable segment for `elf64`: address, size in memory, flags, bytes.
struct Seg {
    vaddr: u64,
    mem_size: u64,
    flags: u32,
    bytes: Vec<u8>,
}

/// A 64-bit image with the given entry point and loadable segments.
fn elf64(entry: u64, segs: &[Seg]) -> Vec<u8> {
    let mut file = vec![0x7f, b'E', b'L', b'F', 2, 1, 1, 0, 0, 0, 0, 0, 0, 0, 0, 0];
    file.extend_from_slice(&2u16.to_le_bytes()); // executable
    file.extend_from_slice(&243u16.to_le_bytes()); // machine
    file.extend_from_slice(&1u32.to_le_bytes());
    file.extend_from_slice(&entry.to_le_bytes());
    file.extend_from_slice(&64u64.to_le_bytes()); // program headers follow the header
    file.extend_from_slice(&0u64.to_le_bytes());
    file.extend_from_slice(&0u32.to_le_bytes());
    file.extend_from_slice(&64u16.to_le_bytes());
    file.extend_from_slice(&56u16.to_le_bytes());
    file.extend_from_slice(&(segs.len() as u16).to_le_bytes());
    file.extend_from_slice(&0u16.to_le_bytes());
    file.extend_from_slice(&0u16.to_le_bytes());
    file.extend_from_slice(&0u16.to_le_bytes());
    assert_eq!(file.len(), 64);
    let mut offset = 64 + 56 * segs.len() as u64;
    for seg in segs {
        file.extend_from_slice(&1u32.to_le_bytes()); // load
        file.extend_from_slice(&seg.flags.to_le_bytes());
        file.extend_from_slice(&offset.to_le_bytes());
        file.extend_from_slice(&seg.vaddr.to_le_bytes());
        file.extend_from_slice(&seg.vaddr.to_le_bytes());
        file.extend_from_slice(&(seg.bytes.len() as u64).to_le_bytes());
        file.extend_from_slice(&seg.mem_size.to_le_bytes());
        file.extend_from_slice(&0x1000u64.to_le_bytes());
        offset += seg.bytes.len() as u64;
    }
    for seg in segs {
        file.extend_from_slice(&seg.bytes);
    }
    file
}

fn read_page(mem: &PhysMemory, space: &MemorySet, vpn: u64) -> Vec<u8> {
    let entry = space.translate(VirtPageNum(vpn), mem).unwrap();
    entry.ppn().get_bytes_array(mem)
}

const TRAMPOLINE_CODE: u64 = 0x8020_1000;

#[test]
fn permissions_are_flags_of_an_entry() {
    assert_eq!(MapPermission::R().bits(), PTEFlags::R().bits());
    assert_eq!(MapPermission::W().bits(), PTEFlags::W().bits());
    assert_eq!(MapPermission::X().bits(), PTEFlags::X().bits());
    assert_eq!(MapPermission::U().bits(), PTEFlags::U().bits());
    let rw = MapPermission::R().union(MapPermission::W());
    assert_eq!(rw.bits(), 6);
    assert!(rw.contains(MapPermission::R()));
    assert!(!rw.contains(MapPermission::X()));
    assert_eq!(MapPermission::from_bits(0x1e), Some(MapPermission { bits: 0x1e }));
    assert_eq!(MapPermission::from_bits(0x01), None);
    assert_eq!(MapPermission::from_bits(0x20), None);
    assert_eq!(MapPermission::empty().bits(), 0);
}

#[test]
fn an_area_covers_the_pages_that_its_addresses_touch() {
    let area = MapArea::new(VirtAddr(0x1234), VirtAddr(0x3001), MapType::Framed, MapPermission::R());
    assert_eq!(area.bounds(), (VirtPageNum(1), VirtPageNum(4)));
    assert_eq!(area.map_type(), MapType::Framed);
    assert_eq!(area.permission(), MapPermission::R());
    assert_eq!(area.frame_for(VirtPageNum(1)), None);
    let area = MapArea::new(VirtAddr(0x2000), VirtAddr(0x2000), MapType::Identical, MapPermission::R());
    assert_eq!(area.bounds(), (VirtPageNum(2), VirtPageNum(2)));
}

#[test]
fn a_framed_area_owns_one_zeroed_frame_per_page() {
    let (mut allocator, mut mem) = pool(0x80000, 32);
    let mut table = PageTable::new(&mut allocator, &mut mem).unwrap();
    let perm = MapPermission::R().union(MapPermission::W());
    let mut area = MapArea::new(VirtAddr(0x4000), VirtAddr(0x7000), MapType::Framed, perm);
    assert_eq!(area.map(&mut table, &mut allocator, &mut mem), Ok(()));
    let mut frames = Vec::new();
    for vpn in 4..7 {
        let entry = table.translate(VirtPageNum(vpn), &mem).unwrap();
        assert_eq!(entry.flags().bits(), perm.bits() | 1);
        assert_eq!(area.frame_for(VirtPageNum(vpn)), Some(entry.ppn()));
        assert!(allocator.allocated(entry.ppn()));
        assert!(entry.ppn().get_bytes_array(&mem).iter().all(|b| *b == 0));
        frames.push(entry.ppn());
    }
    frames.dedup();
    assert_eq!(frames.len(), 3);
    assert_eq!(table.translate(VirtPageNum(3), &mem), None);
    assert_eq!(table.translate(VirtPageNum(7), &mem), None);
    // Unmapping gives the frames back.
    assert_eq!(area.unmap(&mut table, &mut allocator, &mut mem), Ok(()));
    for (i, vpn) in (4..7).enumerate() {
        assert_eq!(table.translate(VirtPageNum(vpn), &mem), None);
        assert_eq!(area.frame_for(VirtPageNum(vpn)), None);
        assert!(!allocator.allocated(frames[i]));
    }
}

#[test]
fn an_identical_area_maps_each_page_to_the_frame_with_its_number() {
    let (mut allocator, mut mem) = pool(0x80000, 32);
    let mut table = PageTable::new(&mut allocator, &mut mem).unwrap();
    let perm = MapPermission::R().union(MapPermission::X());
    let mut area = MapArea::new(VirtAddr(0x8020_0000), VirtAddr(0x8020_2000), MapType::Identical, perm);
    assert_eq!(area.map_one(&mut table, VirtPageNum(0x80200), &mut allocator, &mut mem), Ok(()));
    assert_eq!(area.map_one(&mut table, VirtPageNum(0x80201), &mut allocator, &mut mem), Ok(()));
    let entry = table.translate(VirtPageNum(0x80201), &mem).unwrap();
    assert_eq!(entry.ppn(), PhysPageNum(0x80201));
    assert_eq!(entry.flags().bits(), 0x0b);
    assert_eq!(area.frame_for(VirtPageNum(0x80201)), None);
    assert_eq!(
        area.map_one(&mut table, VirtPageNum(0x80201), &mut allocator, &mut mem),
        Err(MapError::AlreadyMapped)
    );
    assert_eq!(area.unmap_one(&mut table, VirtPageNum(0x80201), &mut allocator, &mut mem), Ok(()));
    assert_eq!(table.translate(VirtPageNum(0x80201), &mem), None);
    assert_eq!(
        area.unmap_one(&mut table, VirtPageNum(0x80201), &mut allocator, &mut mem),
        Err(MapError::NotMapped)
    );
}

#[test]
fn a_mapping_that_fails_is_rolled_back() {
    let (mut allocator, mut mem) = pool(0x80000, 32);
    let mut table = PageTable::new(&mut allocator, &mut mem).unwrap();
    table.map(VirtPageNum(6), PhysPageNum(1), PTEFlags::R(), &mut allocator, &mut mem).unwrap();
    let mut area = MapArea::new(VirtAddr(0x4000), VirtAddr(0x8000), MapType::Framed, MapPermission::R());
    assert_eq!(area.map(&mut table, &mut allocator, &mut mem), Err(MapError::AlreadyMapped));
    assert_eq!(table.translate(VirtPageNum(4), &mem), None);
    assert_eq!(table.translate(VirtPageNum(5), &mem), None);
    assert_eq!(table.translate(VirtPageNum(6), &mem).unwrap().ppn(), PhysPageNum(1));
    assert_eq!(area.frame_for(VirtPageNum(4)), None);
    // unmap stops at the first page that is not mapped.
    assert_eq!(area.unmap(&mut table, &mut allocator, &mut mem), Err(VirtPageNum(4)));
}

#[test]
fn a_mapping_fails_when_the_frames_run_out() {
    let (mut allocator, mut mem) = pool(0x80000, 5);
    let mut table = PageTable::new(&mut allocator, &mut mem).unwrap();
    // Two nodes and two pages fit, the third page does not.
    let mut area = MapArea::new(VirtAddr(0x4000), VirtAddr(0x7000), MapType::Framed, MapPermission::R());
    assert_eq!(area.map(&mut table, &mut allocator, &mut mem), Err(MapError::OutOfFrames));
    assert_eq!(table.translate(VirtPageNum(4), &mem), None);
    // The frames of the pages were given back.
    let mut area = MapArea::new(VirtAddr(0x4000), VirtAddr(0x6000), MapType::Framed, MapPermission::R());
    assert_eq!(area.map(&mut table, &mut allocator, &mut mem), Ok(()));
}

#[test]
fn data_is_copied_page_by_page_and_the_rest_stays_zero() {
    let (mut allocator, mut mem) = pool(0x80000, 32);
    let mut table = PageTable::new(&mut allocator, &mut mem).unwrap();
    let mut area = MapArea::new(VirtAddr(0x4000), VirtAddr(0x7000), MapType::Framed, MapPermission::R());
    area.map(&mut table, &mut allocator, &mut mem).unwrap();
    let data: Vec<u8> = (0..5000u32).map(|i| (i % 251) as u8 + 1).collect();
    area.copy_data(&table, &data, &mut mem);
    let first = table.translate(VirtPageNum(4), &mem).unwrap().ppn().get_bytes_array(&mem);
    let second = table.translate(VirtPageNum(5), &mem).unwrap().ppn().get_bytes_array(&mem);
    let third = table.translate(VirtPageNum(6), &mem).unwrap().ppn().get_bytes_array(&mem);
    assert_eq!(&first[..], &data[..4096]);
    assert_eq!(&second[..904], &data[4096..]);
    assert!(second[904..].iter().all(|b| *b == 0));
    assert!(third.iter().all(|b| *b == 0));
}

#[test]
fn areas_of_an_address_space_do_not_overlap() {
    let (mut allocator, mut mem) = pool(0x80000, 64);
    let mut space = MemorySet::new_bare(&mut allocator, &mut mem).unwrap();
    let rw = MapPermission::R().union(MapPermission::W());
    assert_eq!(
        space.insert_framed_area(VirtAddr(0x1_0000), VirtAddr(0x1_3000), rw, &mut allocator, &mut mem),
        Ok(())
    );
    assert_eq!(space.area_count(), 1);
    // An area that shares the last page of the first one is rejected.
    assert_eq!(
        space.insert_framed_area(VirtAddr(0x1_2fff), VirtAddr(0x1_5000), rw, &mut allocator, &mut mem),
        Err(MapError::AlreadyMapped)
    );
    assert_eq!(space.area_count(), 1);
    assert_eq!(space.translate(VirtPageNum(0x13), &mem), None);
    assert_eq!(space.translate(VirtPageNum(0x14), &mem), None);
    // An area that starts where the first one ends is fine.
    assert_eq!(
        space.insert_framed_area(VirtAddr(0x1_3000), VirtAddr(0x1_5000), rw, &mut allocator, &mut mem),
        Ok(())
    );
    assert_eq!(space.area_count(), 2);
    assert!(space.translate(VirtPageNum(0x14), &mem).is_some());
    assert_eq!(space.frame_of(VirtPageNum(0x14), MapPermission::W()), Some(space.translate(VirtPageNum(0x14), &mem).unwrap().ppn()));
    assert_eq!(space.frame_of(VirtPageNum(0x14), MapPermission::U()), None);
    assert_eq!(space.frame_of(VirtPageNum(0x15), MapPermission::W()), None);
}

#[test]
fn the_trampoline_is_mapped_at_the_top_without_an_area() {
    let (mut allocator, mut mem) = pool(0x80000, 64);
    let mut space = MemorySet::new_bare(&mut allocator, &mut mem).unwrap();
    assert_eq!(space.map_trampoline(TRAMPOLINE_CODE, &mut allocator, &mut mem), Ok(()));
    assert_eq!(space.area_count(), 0);
    let entry = space.translate(VirtPageNum(0x7ff_ffff), &mem).unwrap();
    assert_eq!(entry.ppn(), PhysPageNum(0x80201));
    assert!(entry.readable() && entry.executable() && !entry.writable());
    assert_eq!(entry.flags().bits(), 0x0b);
    assert_eq!(
        space.map_trampoline(TRAMPOLINE_CODE, &mut allocator, &mut mem),
        Err(MapError::AlreadyMapped)
    );
    assert_eq!(space.token(), (8u64 << 60) | 0x80000);
}

fn layout() -> KernelLayout {
    KernelLayout {
        stext: 0x8020_0000,
        etext: 0x8020_3000,
        srodata: 0x8020_3000,
        erodata: 0x8020_4000,
        sdata: 0x8020_4000,
        edata: 0x8020_5000,
        sbss_with_stack: 0x8020_5000,
        ebss: 0x8020_6000,
        ekernel: 0x8020_6000,
        strampoline: TRAMPOLINE_CODE,
    }
}

#[test]
fn remap_test() {
    let mut mem = PhysMemory::new(PhysPageNum(0x80000), 2048);
    let mut allocator = StackFrameAllocator::new();
    allocator.init(PhysPageNum(0x80206), PhysPageNum(0x80800));
    let l = layout();
    let space = MemorySet::new_kernel(&l, &mut allocator, &mut mem).unwrap();
    assert_eq!(space.area_count(), 5);
    let mid_text = VirtAddr((l.stext + l.etext) / 2).floor();
    let mid_rodata = VirtAddr((l.srodata + l.erodata) / 2).floor();
    let mid_data = VirtAddr((l.sdata + l.edata) / 2).floor();
    assert_eq!(space.translate(mid_text, &mem).unwrap().writable(), false);
    assert_eq!(space.translate(mid_rodata, &mem).unwrap().writable(), false);
    assert_eq!(space.translate(mid_data, &mem).unwrap().executable(), false);
    // The kernel sees every frame at the address of the frame.
    for page in [0x80200u64, 0x80203, 0x80205, 0x80206, 0x80400, 0x807ff] {
        assert_eq!(space.translate(VirtPageNum(page), &mem).unwrap().ppn(), PhysPageNum(page));
    }
    assert_eq!(space.translate(VirtPageNum(0x80800), &mem), None);
    assert_eq!(space.translate(VirtPageNum(0x801ff), &mem), None);
    assert!(space.translate(VirtPageNum(0x80200), &mem).unwrap().executable());
    assert_eq!(space.translate(VirtPageNum(0x80300), &mem).unwrap().flags().bits(), 0x07);
    assert_eq!(space.translate(VirtPageNum(0x7ff_ffff), &mem).unwrap().ppn(), PhysPageNum(0x80201));
}

#[test]
fn kernel_sections_that_overlap_are_rejected() {
    let mut mem = PhysMemory::new(PhysPageNum(0x80000), 2048);
    let mut allocator = StackFrameAllocator::new();
    allocator.init(PhysPageNum(0x80206), PhysPageNum(0x80800));
    let mut l = layout();
    l.srodata = 0x8020_2800;
    assert!(matches!(
        MemorySet::new_kernel(&l, &mut allocator, &mut mem),
        Err(MapError::AlreadyMapped)
    ));
}

#[test]
fn an_image_gives_its_entry_and_loadable_segments() {
    let file = elf64(
        0x1_0040,
        &[
            Seg { vaddr: 0x1_0000, mem_size: 0x1800, flags: 5, bytes: vec![1, 2, 3, 4] },
            Seg { vaddr: 0x1_2000, mem_size: 0x3000, flags: 6, bytes: vec![9; 0x100] },
        ],
    );
    let image = load_image(&file).unwrap();
    assert_eq!(image.entry_point, 0x1_0040);
    assert_eq!(
        image.segments,
        vec![
            SegmentHeader {
                virtual_addr: 0x1_0000,
                mem_size: 0x1800,
                offset: 64 + 2 * 56,
                file_size: 4,
                readable: true,
                writable: false,
                executable: true,
            },
            SegmentHeader {
                virtual_addr: 0x1_2000,
                mem_size: 0x3000,
                offset: 64 + 2 * 56 + 4,
                file_size: 0x100,
                readable: true,
                writable: true,
                executable: false,
            },
        ]
    );
}

#[test]
fn segments_that_are_not_loadable_are_skipped() {
    let mut file = elf64(0x1000, &[
        Seg { vaddr: 0x1000, mem_size: 0x1000, flags: 4, bytes: vec![] },
        Seg { vaddr: 0x3000, mem_size: 0x1000, flags: 4, bytes: vec![] },
    ]);
    // Turn the first program header into a note.
    file[64..68].copy_from_slice(&4u32.to_le_bytes());
    let image = load_image(&file).unwrap();
    assert_eq!(image.segments.len(), 1);
    assert_eq!(image.segments[0].virtual_addr, 0x3000);
}

#[test]
fn files_that_are_no_image_are_rejected() {
    assert_eq!(load_image(&[]).unwrap_err(), ImageError::TooShort);
    assert_eq!(load_image(&[0x7f, b'E', b'L', b'F']).unwrap_err(), ImageError::TooShort);
    assert_eq!(load_image(&[0u8; 51]).unwrap_err(), ImageError::TooShort);
    assert_eq!(load_image(&[0u8; 52]).unwrap_err(), ImageError::BadHeader);
    assert_eq!(load_image(&[0u8; 64]).unwrap_err(), ImageError::BadHeader);
    let mut file = elf64(0x1000, &[Seg { vaddr: 0x1000, mem_size: 0x1000, flags: 5, bytes: vec![0; 8] }]);
    file[0] = 0x7e;
    assert_eq!(load_image(&file).unwrap_err(), ImageError::BadHeader);
    // A class that is neither 32 nor 64 bits.
    let mut file = elf64(0x1000, &[]);
    file[4] = 3;
    assert_eq!(load_image(&file).unwrap_err(), ImageError::BadHeader);
}

#[test]
fn program_headers_that_cannot_be_read_are_rejected() {
    let good = elf64(0x1000, &[
        Seg { vaddr: 0x1000, mem_size: 0x1000, flags: 5, bytes: vec![0; 8] },
        Seg { vaddr: 0x3000, mem_size: 0x1000, flags: 6, bytes: vec![0; 8] },
    ]);
    // The second program header lies past the end of the file.
    let cut = &good[..64 + 56 + 20];
    assert_eq!(load_image(cut).unwrap_err(), ImageError::BadProgramHeader(1));
    // A type that stands for nothing.
    let mut file = good.clone();
    file[64..68].copy_from_slice(&0x1234_5678u32.to_le_bytes());
    assert_eq!(load_image(&file).unwrap_err(), ImageError::BadProgramHeader(0));
    // Program headers that are too small.
    let mut file = good.clone();
    file[54..56].copy_from_slice(&40u16.to_le_bytes());
    assert_eq!(load_image(&file).unwrap_err(), ImageError::BadProgramHeader(0));
    // Program headers at a misaligned position.
    let mut file = good.clone();
    file[32..40].copy_from_slice(&65u64.to_le_bytes());
    assert_eq!(load_image(&file).unwrap_err(), ImageError::BadProgramHeader(0));
}

#[test]
fn a_program_header_is_readable_if_it_lies_in_the_file_aligned() {
    let h = ImageHeader { is_64: true, entry_point: 0, ph_offset: 64, ph_entry_size: 56, ph_count: 2 };
    assert!(can_read_entry(&h, 0, 176));
    assert!(can_read_entry(&h, 1, 176));
    assert!(!can_read_entry(&h, 1, 175));
    // There is no such header: nothing to read.
    assert!(can_read_entry(&h, 2, 10));
    let h = ImageHeader { is_64: true, entry_point: 0, ph_offset: 68, ph_entry_size: 56, ph_count: 1 };
    assert!(!can_read_entry(&h, 0, 1000));
    let h = ImageHeader { is_64: false, entry_point: 0, ph_offset: 52, ph_entry_size: 32, ph_count: 1 };
    assert!(can_read_entry(&h, 0, 84));
    let h = ImageHeader { is_64: false, entry_point: 0, ph_offset: 52, ph_entry_size: 31, ph_count: 1 };
    assert!(!can_read_entry(&h, 0, 84));
}

#[test]
fn a_task_space_holds_segments_guard_stack_and_trap_context() {
    let (mut allocator, mut mem) = pool(0x80000, 64);
    let code: Vec<u8> = (0..0x1234u32).map(|i| (i % 253) as u8 + 1).collect();
    let file = elf64(
        0x1_0000,
        &[
            Seg { vaddr: 0x1_0000, mem_size: 0x1234, flags: 5, bytes: code.clone() },
            Seg { vaddr: 0x1_2000, mem_size: 0x2000, flags: 6, bytes: vec![7, 8, 9] },
        ],
    );
    let (space, user_sp, entry) =
        MemorySet::from_elf(&file, TRAMPOLINE_CODE, &mut allocator, &mut mem).unwrap();
    assert_eq!(entry, 0x1_0000);
    // The highest segment ends at page 0x14; one guard page, two pages of stack.
    assert_eq!(user_sp, 0x1_7000);
    assert_eq!(space.area_count(), 4);
    // Code: readable and executable in user mode.
    for vpn in [0x10u64, 0x11] {
        let e = space.translate(VirtPageNum(vpn), &mem).unwrap();
        assert_eq!(e.flags().bits(), 0x10 | 0x02 | 0x08 | 0x01);
    }
    let page0 = read_page(&mem, &space, 0x10);
    let page1 = read_page(&mem, &space, 0x11);
    assert_eq!(&page0[..], &code[..4096]);
    assert_eq!(&page1[..0x234], &code[4096..]);
    assert!(page1[0x234..].iter().all(|b| *b == 0));
    // Data: readable and writable in user mode.
    for vpn in [0x12u64, 0x13] {
        let e = space.translate(VirtPageNum(vpn), &mem).unwrap();
        assert_eq!(e.flags().bits(), 0x10 | 0x02 | 0x04 | 0x01);
    }
    let data = read_page(&mem, &space, 0x12);
    assert_eq!(&data[..3], &[7, 8, 9]);
    assert!(data[3..].iter().all(|b| *b == 0));
    // The guard page is not mapped.
    assert_eq!(space.translate(VirtPageNum(0x14), &mem), None);
    // The stack.
    for vpn in [0x15u64, 0x16] {
        let e = space.translate(VirtPageNum(vpn), &mem).unwrap();
        assert_eq!(e.flags().bits(), 0x10 | 0x02 | 0x04 | 0x01);
    }
    assert_eq!(space.translate(VirtPageNum(0x17), &mem), None);
    // The trap context: not for user mode.
    let e = space.translate(VirtPageNum(0x7ff_fffe), &mem).unwrap();
    assert_eq!(e.flags().bits(), 0x02 | 0x04 | 0x01);
    // The trampoline.
    let e = space.translate(VirtPageNum(0x7ff_ffff), &mem).unwrap();
    assert_eq!(e.ppn(), PhysPageNum(0x80201));
    assert_eq!(e.flags().bits(), 0x0b);
    // Every page has a frame of its own.
    let mut frames: Vec<u64> = [0x10u64, 0x11, 0x12, 0x13, 0x15, 0x16, 0x7ff_fffe]
        .iter()
        .map(|v| space.translate(VirtPageNum(*v), &mem).unwrap().ppn().0)
        .collect();
    frames.sort();
    frames.dedup();
    assert_eq!(frames.len(), 7);
}

#[test]
fn segments_that_overlap_are_rejected() {
    let (mut allocator, mut mem) = pool(0x80000, 64);
    let file = elf64(
        0x1000,
        &[
            Seg { vaddr: 0x1000, mem_size: 0x2000, flags: 5, bytes: vec![1] },
            Seg { vaddr: 0x2800, mem_size: 0x1000, flags: 6, bytes: vec![2] },
        ],
    );
    assert!(matches!(
        MemorySet::from_elf(&file, TRAMPOLINE_CODE, &mut allocator, &mut mem),
        Err(LoadError::Mapping(MapError::AlreadyMapped))
    ));
}

#[test]
fn segments_that_do_not_fit_are_rejected() {
    let (mut allocator, mut mem) = pool(0x80000, 64);
    // More bytes in the file than pages in memory.
    let file = elf64(0x1000, &[Seg { vaddr: 0x1000, mem_size: 0x1000, flags: 5, bytes: vec![1; 0x1001] }]);
    assert!(matches!(
        MemorySet::from_elf(&file, TRAMPOLINE_CODE, &mut allocator, &mut mem),
        Err(LoadError::BadSegment(0))
    ));
    // Bytes that lie past the end of the file.
    let mut file = elf64(0x1000, &[
        Seg { vaddr: 0x1000, mem_size: 0x1000, flags: 5, bytes: vec![1; 16] },
        Seg { vaddr: 0x3000, mem_size: 0x1000, flags: 5, bytes: vec![1; 16] },
    ]);
    let second = 64 + 56;
    file[second + 32..second + 40].copy_from_slice(&0x100u64.to_le_bytes());
    assert!(matches!(
        MemorySet::from_elf(&file, TRAMPOLINE_CODE, &mut allocator, &mut mem),
        Err(LoadError::BadSegment(1))
    ));
    // An end that lies before the start once the address is cut to 39 bits.
    let file = elf64(0x1000, &[Seg { vaddr: 0x7f_ffff_f000, mem_size: 0x2000, flags: 5, bytes: vec![] }]);
    assert!(matches!(
        MemorySet::from_elf(&file, TRAMPOLINE_CODE, &mut allocator, &mut mem),
        Err(LoadError::BadSegment(0))
    ));
}

#[test]
fn a_stack_that_does_not_fit_is_rejected() {
    let (mut allocator, mut mem) = pool(0x80000, 64);
    let file = elf64(0x1000, &[Seg { vaddr: 0x7f_ffff_c000, mem_size: 0x1000, flags: 6, bytes: vec![] }]);
    assert!(matches!(
        MemorySet::from_elf(&file, TRAMPOLINE_CODE, &mut allocator, &mut mem),
        Err(LoadError::BadStack)
    ));
}

#[test]
fn an_image_that_is_none_is_reported_as_such() {
    let (mut allocator, mut mem) = pool(0x80000, 64);
    assert!(matches!(
        MemorySet::from_elf(&[1, 2, 3], TRAMPOLINE_CODE, &mut allocator, &mut mem),
        Err(LoadError::Image(ImageError::TooShort))
    ));
    // Nothing was taken.
    assert!(!allocator.allocated(PhysPageNum(0x80000)));
}

#[test]
fn loading_fails_when_the_frames_run_out() {
    let (mut allocator, mut mem) = pool(0x80000, 6);
    let file = elf64(0x1000, &[Seg { vaddr: 0x1000, mem_size: 0x4000, flags: 5, bytes: vec![1; 16] }]);
    assert!(matches!(
        MemorySet::from_elf(&file, TRAMPOLINE_CODE, &mut allocator, &mut mem),
        Err(LoadError::Mapping(MapError::OutOfFrames))
    ));
}

fn allocated_in(allocator: &StackFrameAllocator, first: u64, pages: u64) -> Vec<u64> {
    (first..first + pages).filter(|p| allocator.allocated(PhysPageNum(*p))).collect()
}

#[test]
fn a_load_that_fails_leaves_no_frame_taken() {
    let (mut allocator, mut mem) = pool(0x80000, 6);
    let file = elf64(0x1000, &[Seg { vaddr: 0x1000, mem_size: 0x4000, flags: 5, bytes: vec![1; 16] }]);
    assert!(MemorySet::from_elf(&file, TRAMPOLINE_CODE, &mut allocator, &mut mem).is_err());
    assert_eq!(allocated_in(&allocator, 0x80000, 6), Vec::<u64>::new());
    // Segments that overlap are found after the first one was mapped.
    let (mut allocator, mut mem) = pool(0x80000, 64);
    let file = elf64(
        0x1000,
        &[
            Seg { vaddr: 0x1000, mem_size: 0x2000, flags: 5, bytes: vec![1; 16] },
            Seg { vaddr: 0x2000, mem_size: 0x1000, flags: 6, bytes: vec![2; 16] },
        ],
    );
    assert!(MemorySet::from_elf(&file, TRAMPOLINE_CODE, &mut allocator, &mut mem).is_err());
    assert_eq!(allocated_in(&allocator, 0x80000, 64), Vec::<u64>::new());
}

#[test]
fn an_address_space_that_is_taken_down_gives_every_frame_back() {
    let (mut allocator, mut mem) = pool(0x80000, 64);
    // A frame of someone else, taken before and kept throughout.
    let other = allocator.alloc_frame().unwrap();
    mem.write_word(other, 5, 0xfeed);
    let file = elf64(0x1000, &[Seg { vaddr: 0x1000, mem_size: 0x3000, flags: 7, bytes: vec![9; 100] }]);
    let (space, _, _) = MemorySet::from_elf(&file, TRAMPOLINE_CODE, &mut allocator, &mut mem).unwrap();
    // Three pages of the segment, two of stack, one of trap context; the
    // root, and the tables for the low and for the high addresses.
    assert_eq!(allocated_in(&allocator, 0x80000, 64).len(), 1 + 6 + 5);
    space.release(&mut allocator, &mut mem);
    assert_eq!(allocated_in(&allocator, 0x80000, 64), vec![other.0]);
    assert_eq!(mem.read_word(other, 5), 0xfeed);
    // The frames can be had again, zeroed.
    let (again, _, _) = MemorySet::from_elf(&file, TRAMPOLINE_CODE, &mut allocator, &mut mem).unwrap();
    assert_eq!(allocated_in(&allocator, 0x80000, 64).len(), 1 + 6 + 5);
    let page = read_page(&mem, &again, 3);
    assert!(page.iter().all(|b| *b == 0));
}

#[test]
fn a_hollow_address_space_owns_nothing() {
    let space = MemorySet::hollow();
    assert_eq!(space.area_count(), 0);
    assert_eq!(space.token(), 1 << 63);
    assert_eq!(space.frame_of(VirtPageNum(1), MapPermission::R()), None);
}

#[test]
fn the_stack_lies_above_the_highest_segment_whatever_their_order() {
    let (mut allocator, mut mem) = pool(0x80000, 64);
    let file = elf64(
        0x1_0000,
        &[
            Seg { vaddr: 0x1_0000, mem_size: 0x1000, flags: 5, bytes: vec![1; 8] },
            Seg { vaddr: 0x1000, mem_size: 0x1000, flags: 6, bytes: vec![2; 8] },
        ],
    );
    let (space, user_sp, _) =
        MemorySet::from_elf(&file, TRAMPOLINE_CODE, &mut allocator, &mut mem).unwrap();
    assert_eq!(user_sp, 0x1_4000);
    // The guard page above the highest segment, then two pages of stack.
    assert_eq!(space.translate(VirtPageNum(0x11), &mem), None);
    assert!(space.translate(VirtPageNum(0x12), &mem).is_some());
    assert!(space.translate(VirtPageNum(0x13), &mem).is_some());
    assert_eq!(space.translate(VirtPageNum(0x14), &mem), None);
    // Nothing lands above the lower segment.
    assert_eq!(space.translate(VirtPageNum(2), &mem), None);
    assert_eq!(space.translate(VirtPageNum(3), &mem), None);
    assert_eq!(space.translate(VirtPageNum(4), &mem), None);
    // Segments that come highest first and do not touch are taken.
    let (mut allocator, mut mem) = pool(0x80000, 64);
    let file = elf64(
        0x4000,
        &[
            Seg { vaddr: 0x4000, mem_size: 0x2000, flags: 5, bytes: vec![1; 8] },
            Seg { vaddr: 0x1000, mem_size: 0x2000, flags: 6, bytes: vec![2; 8] },
        ],
    );
    let (_, user_sp, _) = MemorySet::from_elf(&file, TRAMPOLINE_CODE, &mut allocator, &mut mem).unwrap();
    assert_eq!(user_sp, 0x9000);
}

#[test]
fn an_identical_area_takes_frames_for_table_nodes_only() {
    // The root, and room for one second-level and one third-level node.
    let (mut allocator, mut mem) = pool(0x80000, 3);
    let mut table = PageTable::new(&mut allocator, &mut mem).unwrap();
    let mut area = MapArea::new(VirtAddr(0x8000_0000), VirtAddr(0x8000_0000 + 300 * 4096), MapType::Identical, MapPermission::R());
    assert_eq!(area.map(&mut table, &mut allocator, &mut mem), Ok(()));
    assert_eq!(allocated_in(&allocator, 0x80000, 3).len(), 3);
    // A framed area of two pages in one node: two frames and two nodes.
    let (mut allocator, mut mem) = pool(0x80000, 5);
    let mut table = PageTable::new(&mut allocator, &mut mem).unwrap();
    let mut area = MapArea::new(VirtAddr(0x1000), VirtAddr(0x3000), MapType::Framed, MapPermission::R());
    assert_eq!(area.map(&mut table, &mut allocator, &mut mem), Ok(()));
    assert_eq!(allocated_in(&allocator, 0x80000, 5).len(), 5);
}

/// A 32-bit image without program headers: 52 bytes.
fn elf32(entry: u32) -> Vec<u8> {
    let mut file = vec![0x7f, b'E', b'L', b'F', 1, 1, 1, 0, 0, 0, 0, 0, 0, 0, 0, 0];
    file.extend_from_slice(&2u16.to_le_bytes());
    file.extend_from_slice(&243u16.to_le_bytes());
    file.extend_from_slice(&1u32.to_le_bytes());
    file.extend_from_slice(&entry.to_le_bytes());
    file.extend_from_slice(&0u32.to_le_bytes());
    file.extend_from_slice(&0u32.to_le_bytes());
    file.extend_from_slice(&0u32.to_le_bytes());
    file.extend_from_slice(&52u16.to_le_bytes());
    file.extend_from_slice(&32u16.to_le_bytes());
    file.extend_from_slice(&0u16.to_le_bytes());
    file.extend_from_slice(&[0u8; 6]);
    assert_eq!(file.len(), 52);
    file
}

#[test]
fn a_header_is_as_long_as_its_class_says() {
    let file = elf32(0x1000);
    let image = load_image(&file).unwrap();
    assert_eq!(image.entry_point, 0x1000);
    assert_eq!(image.segments.len(), 0);
    assert!(matches!(load_image(&file[..51]), Err(ImageError::TooShort)));
    // The same bytes named as a 64-bit image are too few.
    let mut wide = file.clone();
    wide[4] = 2;
    assert!(matches!(load_image(&wide), Err(ImageError::TooShort)));
    wide.extend_from_slice(&[0u8; 11]);
    assert!(matches!(load_image(&wide), Err(ImageError::TooShort)));
    wide.push(0);
    assert!(load_image(&wide).is_ok());
    // A class that is none is no header, however long the file.
    let mut odd = file.clone();
    odd[4] = 7;
    assert!(matches!(load_image(&odd), Err(ImageError::BadHeader)));
}
