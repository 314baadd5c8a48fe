//! Program images: what the kernel reads of an executable file.
//!
//! The file is parsed by the `xmas-elf` crate. The kernel reads the header,
//! the loadable segments and the entry point, and nothing else.

use vstd::prelude::*;

verus! {

/// What the kernel reads of the header of an image.
#[derive(Copy, Clone, Debug, PartialEq, Eq, Structural)]
pub struct ImageHeader {
    /// Whether the image is of the 64-bit class.
    pub is_64: bool,
    /// The address at which execution starts.
    pub entry_point: u64,
    /// The position of the program headers in the file.
    pub ph_offset: u64,
    /// The size of one program header in bytes.
    pub ph_entry_size: u16,
    /// The number of program headers.
    pub ph_count: u16,
}

/// What a program header says its segment is for.
#[derive(Copy, Clone, Debug, PartialEq, Eq, Structural)]
pub enum SegmentKind {
    /// The segment is to be loaded into memory.
    Load,
    /// The segment has another known purpose.
    Other,
    /// The type of the segment is not a known one.
    Invalid,
}

/// What the kernel reads of one program header.
#[derive(Copy, Clone, Debug, PartialEq, Eq, Structural)]
pub struct SegmentHeader {
    /// The virtual address at which the segment starts.
    pub virtual_addr: u64,
    /// The size of the segment in memory.
    pub mem_size: u64,
    /// The position of the segment's bytes in the file.
    pub offset: u64,
    /// The number of the segment's bytes in the file.
    pub file_size: u64,
    /// Whether the segment can be read.
    pub readable: bool,
    /// Whether the segment can be written.
    pub writable: bool,
    /// Whether the segment can be executed.
    pub executable: bool,
}

/// The header that `xmas-elf` reads from a file that holds `bytes`; `None`
/// where it rejects the file.
pub uninterp spec fn elf_header(bytes: Seq<u8>) -> Option<ImageHeader>;

/// Program header `index` as `xmas-elf` reads it from a file that holds
/// `bytes`; `None` where it finds no such header.
pub uninterp spec fn elf_segment(bytes: Seq<u8>, index: u16) -> Option<SegmentHeader>;

/// What the segment of program header `index` is for, as `xmas-elf` reads it
/// from a file that holds `bytes`; `None` where it finds no such header.
pub uninterp spec fn elf_segment_kind(bytes: Seq<u8>, index: u16) -> Option<SegmentKind>;

/// The smallest size of a program header of the given class.
pub open spec fn min_entry_size(is_64: bool) -> int {
    if is_64 {
        56
    } else {
        32
    }
}

/// The alignment of a program header of the given class.
pub open spec fn entry_align(is_64: bool) -> int {
    if is_64 {
        8
    } else {
        4
    }
}

/// Program header `index` can be read from a file of `len` bytes with the
/// header `h`: either the file has no such header, or the header lies
/// within the file, is large enough, and is aligned.
pub open spec fn entry_readable(h: ImageHeader, index: u16, len: int) -> bool {
    index < h.ph_count && h.ph_offset > 0 && h.ph_entry_size > 0 ==> {
        &&& h.ph_offset + (index + 1) * h.ph_entry_size <= len
        &&& h.ph_entry_size >= min_entry_size(h.is_64)
        &&& (h.ph_offset + index * h.ph_entry_size) % entry_align(h.is_64) == 0
    }
}

/// The file is long enough for the header of an image of its class, which
/// its fifth byte names: 52 bytes, or 64 for the 64-bit class.
pub open spec fn header_fits(bytes: Seq<u8>) -> bool {
    bytes.len() >= 52 && (bytes[4] == 2 ==> bytes.len() >= 64)
}

/// Reads the header of the image in `data` with `ElfFile::new` of
/// `xmas-elf`, on a copy of the data that is aligned to eight bytes.
///
/// Trusted: the result is what `xmas-elf` reads, named [`elf_header`]; for
/// files that are long enough for the header of their class the call does
/// not panic.
#[verifier::external_body]
fn read_header(data: &[u8]) -> (r: Option<ImageHeader>)
    requires
        header_fits(data@),
    ensures
        r == elf_header(data@),
{
    let mut buf = vec![0u8; data.len() + 8];
    let off = buf.as_ptr().align_offset(8);
    buf[off..off + data.len()].copy_from_slice(data);
    match xmas_elf::ElfFile::new(&buf[off..off + data.len()]) {
        Ok(elf) => Some(ImageHeader {
            is_64: matches!(elf.header.pt1.class(), xmas_elf::header::Class::SixtyFour),
            entry_point: elf.header.pt2.entry_point(),
            ph_offset: elf.header.pt2.ph_offset(),
            ph_entry_size: elf.header.pt2.ph_entry_size(),
            ph_count: elf.header.pt2.ph_count(),
        }),
        Err(_) => None,
    }
}

/// Reads program header `index` of the image in `data` with
/// `ElfFile::program_header` of `xmas-elf`, on a copy of the data that is
/// aligned to eight bytes.
///
/// Trusted: the result is what `xmas-elf` reads, named [`elf_segment`]; the
/// call does not panic where the file has a header and the program header
/// can be read.
#[verifier::external_body]
fn read_segment(data: &[u8], index: u16) -> (r: Option<SegmentHeader>)
    requires
        header_fits(data@),
        elf_header(data@) matches Some(h) && entry_readable(h, index, data@.len() as int),
    ensures
        r == elf_segment(data@, index),
{
    let mut buf = vec![0u8; data.len() + 8];
    let off = buf.as_ptr().align_offset(8);
    buf[off..off + data.len()].copy_from_slice(data);
    let elf = xmas_elf::ElfFile::new(&buf[off..off + data.len()]).ok()?;
    let ph = elf.program_header(index).ok()?;
    let (rd, wr, ex) = (ph.flags().is_read(), ph.flags().is_write(), ph.flags().is_execute());
    let (virtual_addr, mem_size, offset, file_size) =
        (ph.virtual_addr(), ph.mem_size(), ph.offset(), ph.file_size());
    Some(SegmentHeader { virtual_addr, mem_size, offset, file_size, readable: rd, writable: wr, executable: ex })
}

/// Reads what the segment of program header `index` of the image in `data`
/// is for, with `ProgramHeader::get_type` of `xmas-elf`, on a copy of the
/// data that is aligned to eight bytes.
///
/// Trusted: the result is what `xmas-elf` reads, named
/// [`elf_segment_kind`]; the call does not panic where the file has a
/// header and the program header can be read.
#[verifier::external_body]
fn read_segment_kind(data: &[u8], index: u16) -> (r: Option<SegmentKind>)
    requires
        header_fits(data@),
        elf_header(data@) matches Some(h) && entry_readable(h, index, data@.len() as int),
    ensures
        r == elf_segment_kind(data@, index),
{
    let mut buf = vec![0u8; data.len() + 8];
    let off = buf.as_ptr().align_offset(8);
    buf[off..off + data.len()].copy_from_slice(data);
    let elf = xmas_elf::ElfFile::new(&buf[off..off + data.len()]).ok()?;
    Some(match elf.program_header(index).ok()?.get_type() {
        Ok(xmas_elf::program::Type::Load) => SegmentKind::Load,
        Ok(_) => SegmentKind::Other,
        Err(_) => SegmentKind::Invalid,
    })
}

/// Why an image cannot be loaded.
#[derive(Copy, Clone, Debug, PartialEq, Eq, Structural)]
pub enum ImageError {
    /// The file is shorter than the header of an image.
    TooShort,
    /// The file does not start with the header of an image.
    BadHeader,
    /// The program header with this index lies outside the file, is too
    /// small or misaligned, or names no known type of segment.
    BadProgramHeader(u16),
}

/// The entry point and the loadable segments of a program.
#[derive(Debug)]
pub struct ProgramImage {
    /// The address at which execution starts.
    pub entry_point: u64,
    /// The loadable segments, in the order of their program headers.
    pub segments: Vec<SegmentHeader>,
}

/// The loadable segments among the first `k` program headers of a file that
/// holds `bytes` and has the header `h`, or the first program header among
/// them that cannot be used.
pub open spec fn loadable(bytes: Seq<u8>, h: ImageHeader, k: int) -> Result<
    Seq<SegmentHeader>,
    ImageError,
>
    decreases k,
{
    if k <= 0 {
        Ok(Seq::empty())
    } else {
        match loadable(bytes, h, k - 1) {
            Err(e) => Err(e),
            Ok(segments) => segment_added(
                segments,
                (k - 1) as u16,
                entry_readable(h, (k - 1) as u16, bytes.len() as int),
                elf_segment(bytes, (k - 1) as u16),
                elf_segment_kind(bytes, (k - 1) as u16),
            ),
        }
    }
}

/// The loadable segments after program header `index` was looked at:
/// `segments` and, if the header is that of a loadable segment, that
/// segment; an error if the header cannot be read or names no known type.
pub open spec fn segment_added(
    segments: Seq<SegmentHeader>,
    index: u16,
    readable: bool,
    header: Option<SegmentHeader>,
    kind: Option<SegmentKind>,
) -> Result<Seq<SegmentHeader>, ImageError> {
    if !readable {
        Err(ImageError::BadProgramHeader(index))
    } else {
        match (header, kind) {
            (Some(sh), Some(SegmentKind::Load)) => Ok(segments.push(sh)),
            (Some(_), Some(SegmentKind::Other)) => Ok(segments),
            _ => Err(ImageError::BadProgramHeader(index)),
        }
    }
}

/// The entry point and the loadable segments of the image in a file that
/// holds `bytes`, or why the file cannot be loaded.
pub open spec fn image_of(bytes: Seq<u8>) -> Result<(u64, Seq<SegmentHeader>), ImageError> {
    if !header_fits(bytes) {
        Err(ImageError::TooShort)
    } else {
        match elf_header(bytes) {
            None => Err(ImageError::BadHeader),
            Some(h) => match loadable(bytes, h, h.ph_count as int) {
                Ok(segments) => Ok((h.entry_point, segments)),
                Err(e) => Err(e),
            },
        }
    }
}

/// Whether program header `index` can be read from a file of `len` bytes
/// with the header `h`.
#[verifier::spinoff_prover]
pub fn can_read_entry(h: &ImageHeader, index: u16, len: usize) -> (r: bool)
    ensures
        r == entry_readable(*h, index, len as int),
{
    if index < h.ph_count && h.ph_offset > 0 && h.ph_entry_size > 0 {
        let size: u64 = h.ph_entry_size as u64;
        assert(index as int * size as int <= 65535 * 65535 && (index + 1) * size == index * size
            + size) by (nonlinear_arith)
            requires
                0 <= index <= 65535,
                0 <= size <= 65535,
        ;
        let before: u64 = index as u64 * size;
        let min: u64 = if h.is_64 {
            56
        } else {
            32
        };
        let align: u64 = if h.is_64 {
            8
        } else {
            4
        };
        if size < min {
            return false;
        }
        let len64: u64 = len as u64;
        if before + size > len64 || h.ph_offset > len64 - (before + size) {
            return false;
        }
        (h.ph_offset + before) % align == 0
    } else {
        true
    }
}

/// Takes the segment of one program header into the list of loadable
/// segments: adds it if it is to be loaded, skips it if it has another
/// known purpose, and fails otherwise.
#[verifier::spinoff_prover]
pub fn add_segment(
    segments: &mut Vec<SegmentHeader>,
    index: u16,
    readable: bool,
    header: Option<SegmentHeader>,
    kind: Option<SegmentKind>,
) -> (r: Result<(), ImageError>)
    ensures
        match r {
            Ok(()) => segment_added(old(segments)@, index, readable, header, kind) == Ok::<
                Seq<SegmentHeader>,
                ImageError,
            >(final(segments)@),
            Err(e) => segment_added(old(segments)@, index, readable, header, kind) == Err::<
                Seq<SegmentHeader>,
                ImageError,
            >(e) && final(segments)@ == old(segments)@,
        },
{
    if !readable {
        return Err(ImageError::BadProgramHeader(index));
    }
    match (header, kind) {
        (Some(sh), Some(SegmentKind::Load)) => {
            segments.push(sh);
            Ok(())
        },
        (Some(_), Some(SegmentKind::Other)) => Ok(()),
        _ => Err(ImageError::BadProgramHeader(index)),
    }
}

/// Reads the entry point and the loadable segments of the image in `data`.
#[verifier::spinoff_prover]
pub fn load_image(data: &[u8]) -> (r: Result<ProgramImage, ImageError>)
    ensures
        match r {
            Ok(image) => image_of(data@) == Ok::<(u64, Seq<SegmentHeader>), ImageError>(
                (image.entry_point, image.segments@),
            ),
            Err(e) => image_of(data@) == Err::<(u64, Seq<SegmentHeader>), ImageError>(e),
        },
{
    if data.len() < 52 || (data[4] == 2 && data.len() < 64) {
        return Err(ImageError::TooShort);
    }
    let h = match read_header(data) {
        Some(h) => h,
        None => {
            return Err(ImageError::BadHeader);
        },
    };
    let mut segments: Vec<SegmentHeader> = Vec::new();
    let mut i: u16 = 0;
    while i < h.ph_count
        invariant
            header_fits(data@),
            elf_header(data@) == Some(h),
            i <= h.ph_count,
            loadable(data@, h, i as int) == Ok::<Seq<SegmentHeader>, ImageError>(segments@),
        decreases h.ph_count - i,
    {
        let readable = can_read_entry(&h, i, data.len());
        let (header, kind) = if readable {
            (read_segment(data, i), read_segment_kind(data, i))
        } else {
            (None, None)
        };
        match add_segment(&mut segments, i, readable, header, kind) {
            Ok(()) => {},
            Err(e) => {
                assert(loadable(data@, h, i + 1) == Err::<Seq<SegmentHeader>, ImageError>(e));
                proof {
                    lemma_loadable_fails(data@, h, i + 1, h.ph_count as int);
                }
                return Err(e);
            },
        }
        i += 1;
    }
    Ok(ProgramImage { entry_point: h.entry_point, segments })
}

/// Once a program header cannot be used, looking at more of them does not
/// help.
#[verifier::spinoff_prover]
pub proof fn lemma_loadable_fails(bytes: Seq<u8>, h: ImageHeader, k: int, n: int)
    requires
        0 <= k <= n,
        loadable(bytes, h, k).is_err(),
    ensures
        loadable(bytes, h, n) == loadable(bytes, h, k),
    decreases n - k,
{
    if k < n {
        lemma_loadable_fails(bytes, h, k, n - 1);
    }
}

} // verus!
