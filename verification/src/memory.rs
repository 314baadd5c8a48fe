//! Physical memory as the kernel sees it: a run of pages, each of 512 words
//! of 64 bits, addressed by physical page number.
//!
//! Every access to the content of a frame in this crate goes through
//! [`PhysMemory`]. A page can be read as words, which is how page tables see
//! it, or as 4096 bytes in little-endian order within each word.

use crate::address::PhysPageNum;
use vstd::prelude::*;

verus! {

/// The largest number of pages that a [`PhysMemory`] can hold.
pub const MAX_PAGES: usize = 0x10_0000;

/// Byte `k` (0 is the lowest) of the word `w`.
pub open spec fn byte_of(w: u64, k: int) -> u8 {
    ((w >> ((8 * k) as u64)) & 0xff) as u8
}

/// The word `w` with byte `k` replaced by `b`.
pub open spec fn with_byte(w: u64, k: int, b: u8) -> u64 {
    (w & !(0xffu64 << ((8 * k) as u64))) | ((b as u64) << ((8 * k) as u64))
}

/// Reading a byte of a word after writing one: the written byte where the
/// positions agree, the old one elsewhere.
#[verifier::spinoff_prover]
pub proof fn lemma_with_byte(w: u64, k: int, b: u8, j: int)
    requires
        0 <= k < 8,
        0 <= j < 8,
    ensures
        byte_of(with_byte(w, k, b), j) == if j == k {
            b
        } else {
            byte_of(w, j)
        },
        byte_of(0, j) == 0,
{
    let s: u64 = (8 * k) as u64;
    let t: u64 = (8 * j) as u64;
    assert((((w & !(0xffu64 << s)) | ((b as u64) << s)) >> s) & 0xff == b as u64) by (bit_vector)
        requires
            s == 0 || s == 8 || s == 16 || s == 24 || s == 32 || s == 40 || s == 48 || s == 56,
    ;
    assert(s != t ==> (((w & !(0xffu64 << s)) | ((b as u64) << s)) >> t) & 0xff == (w >> t) & 0xff)
        by (bit_vector)
        requires
            s == 0 || s == 8 || s == 16 || s == 24 || s == 32 || s == 40 || s == 48 || s == 56,
            t == 0 || t == 8 || t == 16 || t == 24 || t == 32 || t == 40 || t == 48 || t == 56,
    ;
    assert((0u64 >> t) & 0xff == 0) by (bit_vector);
}

/// The memory `m1` is `m0` with byte `off` of page `ppn` set to `value`:
/// every other byte, and every word but the one that holds the byte, is as
/// it was.
#[verifier::opaque]
pub open spec fn byte_written(
    m0: &PhysMemory,
    m1: &PhysMemory,
    ppn: PhysPageNum,
    off: int,
    value: u8,
) -> bool {
    &&& m1.byte(ppn, off) == value
    &&& forall|p: PhysPageNum, o: int|
        0 <= o < 4096 && m0.contains(p) && (p != ppn || o != off) ==> #[trigger] m1.byte(p, o)
            == m0.byte(p, o)
    &&& forall|p: PhysPageNum, i: int|
        0 <= i < 512 && m0.contains(p) && (p != ppn || i != off / 8) ==> #[trigger] m1.word(p, i)
            == m0.word(p, i)
}

/// The content of a range of physical pages.
pub struct PhysMemory {
    base: u64,
    pages: usize,
    words: Vec<u64>,
}

impl PhysMemory {
    /// The number of the first page that the memory holds.
    pub closed spec fn base(&self) -> int {
        self.base as int
    }

    /// The number of pages that the memory holds.
    pub closed spec fn page_count(&self) -> int {
        self.pages as int
    }

    /// The memory's internal bookkeeping is consistent.
    pub closed spec fn wf(&self) -> bool {
        &&& self.words@.len() == self.pages * 512
        &&& self.pages <= MAX_PAGES
        &&& self.base + self.pages <= crate::address::PPN_LIMIT
    }

    /// Whether the memory holds page `ppn`.
    pub open spec fn contains(&self, ppn: PhysPageNum) -> bool {
        self.base() <= ppn.0 < self.base() + self.page_count()
    }

    /// Word `idx` of page `ppn`.
    pub closed spec fn word(&self, ppn: PhysPageNum, idx: int) -> u64 {
        self.words@[(ppn.0 - self.base) * 512 + idx]
    }

    /// Byte `off` of page `ppn`.
    pub open spec fn byte(&self, ppn: PhysPageNum, off: int) -> u8 {
        byte_of(self.word(ppn, off / 8), off % 8)
    }

    /// Every word of page `ppn` is zero.
    pub open spec fn page_is_zero(&self, ppn: PhysPageNum) -> bool {
        forall|i: int| 0 <= i < 512 ==> #[trigger] self.word(ppn, i) == 0
    }

    /// Page `ppn` holds the same words in both memories.
    pub open spec fn same_page(&self, other: &PhysMemory, ppn: PhysPageNum) -> bool {
        forall|i: int| 0 <= i < 512 ==> #[trigger] self.word(ppn, i) == other.word(ppn, i)
    }

    /// Both memories hold the same range of pages.
    pub open spec fn same_range(&self, other: &PhysMemory) -> bool {
        self.base() == other.base() && self.page_count() == other.page_count()
    }

    /// A well-formed memory ends at or before the largest page number.
    #[verifier::spinoff_prover]
    pub proof fn lemma_range_is_valid(&self)
        requires
            self.wf(),
        ensures
            0 <= self.base(),
            0 <= self.page_count(),
            self.base() + self.page_count() <= crate::address::PPN_LIMIT,
    {
    }

    /// A memory of `pages` zeroed pages, the first of which is page `base`.
    #[verifier::spinoff_prover]
    pub fn new(base: PhysPageNum, pages: usize) -> (mem: PhysMemory)
        requires
            pages <= MAX_PAGES,
            base.0 + pages <= crate::address::PPN_LIMIT,
        ensures
            mem.wf(),
            mem.base() == base.0,
            mem.page_count() == pages,
            forall|p: PhysPageNum| mem.contains(p) ==> mem.page_is_zero(p),
    {
        let mut words: Vec<u64> = Vec::new();
        let total: usize = pages * 512;
        let mut i: usize = 0;
        while i < total
            invariant
                i <= total,
                words@.len() == i,
                forall|j: int| 0 <= j < i ==> words@[j] == 0,
            decreases total - i,
        {
            words.push(0);
            i += 1;
        }
        PhysMemory { base: base.0, pages, words }
    }

    /// Whether the memory holds page `ppn`.
    #[verifier::spinoff_prover]
    pub fn holds(&self, ppn: PhysPageNum) -> (r: bool)
        requires
            self.wf(),
        ensures
            r == self.contains(ppn),
    {
        self.base <= ppn.0 && ppn.0 - self.base < self.pages as u64
    }

    /// Reads word `idx` of page `ppn`.
    #[verifier::spinoff_prover]
    pub fn read_word(&self, ppn: PhysPageNum, idx: usize) -> (w: u64)
        requires
            self.wf(),
            self.contains(ppn),
            idx < 512,
        ensures
            w == self.word(ppn, idx as int),
    {
        let at: usize = (ppn.0 - self.base) as usize * 512 + idx;
        self.words[at]
    }

    /// Writes word `idx` of page `ppn`; every other word keeps its value.
    #[verifier::spinoff_prover]
    pub fn write_word(&mut self, ppn: PhysPageNum, idx: usize, value: u64)
        requires
            old(self).wf(),
            old(self).contains(ppn),
            idx < 512,
        ensures
            final(self).wf(),
            final(self).same_range(old(self)),
            final(self).word(ppn, idx as int) == value,
            forall|p: PhysPageNum, i: int|
                0 <= i < 512 && old(self).contains(p) && (p != ppn || i != idx) ==> #[trigger] final(
                    self).word(p, i) == old(self).word(p, i),
    {
        let at: usize = (ppn.0 - self.base) as usize * 512 + idx;
        self.words.set(at, value);
    }

    /// Reads byte `off` of page `ppn`.
    #[verifier::spinoff_prover]
    pub fn read_byte(&self, ppn: PhysPageNum, off: usize) -> (b: u8)
        requires
            self.wf(),
            self.contains(ppn),
            off < 4096,
        ensures
            b == self.byte(ppn, off as int),
    {
        let w: u64 = self.read_word(ppn, off / 8);
        let shift: u64 = 8 * (off % 8) as u64;
        ((w >> shift) & 0xff) as u8
    }

    /// Writes byte `off` of page `ppn`; every other byte keeps its value.
    #[verifier::spinoff_prover]
    pub fn write_byte(&mut self, ppn: PhysPageNum, off: usize, value: u8)
        requires
            old(self).wf(),
            old(self).contains(ppn),
            off < 4096,
        ensures
            final(self).wf(),
            final(self).same_range(old(self)),
            byte_written(old(self), final(self), ppn, off as int, value),
    {
        let w: u64 = self.read_word(ppn, off / 8);
        let shift: u64 = 8 * (off % 8) as u64;
        let updated: u64 = (w & !(0xffu64 << shift)) | ((value as u64) << shift);
        self.write_word(ppn, off / 8, updated);
        proof {
            let k = (off % 8) as int;
            assert(updated == with_byte(w, k, value));
            lemma_with_byte(w, k, value, k);
            assert forall|p: PhysPageNum, o: int|
                0 <= o < 4096 && old(self).contains(p) && (p != ppn || o != off) implies #[trigger] self.byte(
                p,
                o,
            ) == old(self).byte(p, o) by {
                if p == ppn && o / 8 == off / 8 {
                    lemma_with_byte(w, k, value, o % 8);
                }
            }
            reveal(byte_written);
        }
    }

    /// Sets every word of page `ppn` to zero; every other page keeps its
    /// content.
    #[verifier::spinoff_prover]
    pub fn clear_page(&mut self, ppn: PhysPageNum)
        requires
            old(self).wf(),
            old(self).contains(ppn),
        ensures
            final(self).wf(),
            final(self).same_range(old(self)),
            final(self).page_is_zero(ppn),
            forall|p: PhysPageNum|
                old(self).contains(p) && p != ppn ==> #[trigger] final(self).same_page(old(self), p),
    {
        let mut i: usize = 0;
        while i < 512
            invariant
                i <= 512,
                self.wf(),
                self.same_range(old(self)),
                self.contains(ppn),
                forall|j: int| 0 <= j < i ==> #[trigger] self.word(ppn, j) == 0,
                forall|p: PhysPageNum, j: int|
                    0 <= j < 512 && old(self).contains(p) && p != ppn ==> #[trigger] self.word(p, j)
                        == old(self).word(p, j),
            decreases 512 - i,
        {
            self.write_word(ppn, i, 0);
            i += 1;
        }
    }
}

impl PhysPageNum {
    /// The 4096 bytes of this page, copied out of `mem`.
    #[verifier::spinoff_prover]
    pub fn get_bytes_array(&self, mem: &PhysMemory) -> (bytes: Vec<u8>)
        requires
            mem.wf(),
            mem.contains(*self),
        ensures
            bytes@.len() == 4096,
            forall|o: int| 0 <= o < 4096 ==> bytes@[o] == mem.byte(*self, o),
    {
        let mut bytes: Vec<u8> = Vec::new();
        let mut off: usize = 0;
        while off < 4096
            invariant
                off <= 4096,
                mem.wf(),
                mem.contains(*self),
                bytes@.len() == off,
                forall|o: int| 0 <= o < off ==> bytes@[o] == mem.byte(*self, o),
            decreases 4096 - off,
        {
            bytes.push(mem.read_byte(*self, off));
            off += 1;
        }
        bytes
    }
}

} // verus!
