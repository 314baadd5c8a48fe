//! Physical and virtual addresses, page numbers, and ranges of page numbers.
//!
//! An address is a byte address; a page number is an address divided by the
//! page size. Physical addresses are 56 bits wide and virtual addresses 39
//! bits, so page numbers are 44 and 27 bits wide.

use vstd::prelude::*;
use vstd::std_specs::convert::FromSpecImpl;

verus! {

/// Width of a physical address in bits.
pub const PA_WIDTH_SV39: u64 = 56;

/// Width of a physical page number in bits.
pub const PPN_WIDTH_SV39: u64 = 44;

/// Width of a virtual address in bits.
pub const VA_WIDTH_SV39: u64 = 39;

/// Width of a virtual page number in bits.
pub const VPN_WIDTH_SV39: u64 = 27;

/// The bits of a physical address.
pub const PA_MASK: u64 = 0xff_ffff_ffff_ffff;

/// The bits of a physical page number.
pub const PPN_MASK: u64 = 0xfff_ffff_ffff;

/// The bits of a virtual address.
pub const VA_MASK: u64 = 0x7f_ffff_ffff;

/// The bits of a virtual page number.
pub const VPN_MASK: u64 = 0x7ff_ffff;

/// One past the largest physical address.
pub const PA_LIMIT: u64 = 0x100_0000_0000_0000;

/// One past the largest physical page number.
pub const PPN_LIMIT: u64 = 0x1000_0000_0000;

/// One past the largest virtual address.
pub const VA_LIMIT: u64 = 0x80_0000_0000;

/// One past the largest virtual page number.
pub const VPN_LIMIT: u64 = 0x800_0000;

/// A physical byte address.
#[derive(Copy, Clone, Debug, PartialEq, Eq, Structural, PartialOrd, Ord)]
pub struct PhysAddr(pub u64);

/// A virtual byte address.
#[derive(Copy, Clone, Debug, PartialEq, Eq, Structural, PartialOrd, Ord)]
pub struct VirtAddr(pub u64);

/// A physical page number.
#[derive(Copy, Clone, Debug, PartialEq, Eq, Structural, PartialOrd, Ord)]
pub struct PhysPageNum(pub u64);

/// A virtual page number.
#[derive(Copy, Clone, Debug, PartialEq, Eq, Structural, PartialOrd, Ord)]
pub struct VirtPageNum(pub u64);

/// Facts that tie the bit operations used on addresses to arithmetic.
pub proof fn lemma_address_bits(v: u64)
    by (bit_vector)
    ensures
        v & 0xff_ffff_ffff_ffff == v % 0x100_0000_0000_0000,
        v & 0xfff_ffff_ffff == v % 0x1000_0000_0000,
        v & 0x7f_ffff_ffff == v % 0x80_0000_0000,
        v & 0x7ff_ffff == v % 0x800_0000,
        v & 0xfff == v % 0x1000,
        v & 511 == v % 512,
        v >> 9 == v / 512,
        (v >> 9) >> 9 == v / 0x4_0000,
        v >> 12 == v / 0x1000,
        v < 0x10_0000_0000_0000 ==> v << 12 == v * 0x1000,
        (v << 12) & 0xfff == 0,
        (v << 12) >> 12 == v & 0xf_ffff_ffff_ffff,
{
}

impl From<u64> for PhysAddr {
    /// Keeps the low 56 bits of `v`.
    fn from(v: u64) -> (r: PhysAddr) {
        proof {
            lemma_address_bits(v);
        }
        PhysAddr(v & PA_MASK)
    }
}

impl FromSpecImpl<u64> for PhysAddr {
    open spec fn obeys_from_spec() -> bool {
        true
    }

    open spec fn from_spec(v: u64) -> PhysAddr {
        PhysAddr(v % PA_LIMIT)
    }
}

impl From<u64> for PhysPageNum {
    /// Keeps the low 44 bits of `v`.
    fn from(v: u64) -> (r: PhysPageNum) {
        proof {
            lemma_address_bits(v);
        }
        PhysPageNum(v & PPN_MASK)
    }
}

impl FromSpecImpl<u64> for PhysPageNum {
    open spec fn obeys_from_spec() -> bool {
        true
    }

    open spec fn from_spec(v: u64) -> PhysPageNum {
        PhysPageNum(v % PPN_LIMIT)
    }
}

impl From<u64> for VirtAddr {
    /// Keeps the low 39 bits of `v`.
    fn from(v: u64) -> (r: VirtAddr) {
        proof {
            lemma_address_bits(v);
        }
        VirtAddr(v & VA_MASK)
    }
}

impl FromSpecImpl<u64> for VirtAddr {
    open spec fn obeys_from_spec() -> bool {
        true
    }

    open spec fn from_spec(v: u64) -> VirtAddr {
        VirtAddr(v % VA_LIMIT)
    }
}

impl From<u64> for VirtPageNum {
    /// Keeps the low 27 bits of `v`.
    fn from(v: u64) -> (r: VirtPageNum) {
        proof {
            lemma_address_bits(v);
        }
        VirtPageNum(v & VPN_MASK)
    }
}

impl FromSpecImpl<u64> for VirtPageNum {
    open spec fn obeys_from_spec() -> bool {
        true
    }

    open spec fn from_spec(v: u64) -> VirtPageNum {
        VirtPageNum(v % VPN_LIMIT)
    }
}

impl From<PhysAddr> for u64 {
    fn from(v: PhysAddr) -> (r: u64) {
        v.0
    }
}

impl FromSpecImpl<PhysAddr> for u64 {
    open spec fn obeys_from_spec() -> bool {
        true
    }

    open spec fn from_spec(v: PhysAddr) -> u64 {
        v.0
    }
}

impl From<PhysPageNum> for u64 {
    fn from(v: PhysPageNum) -> (r: u64) {
        v.0
    }
}

impl FromSpecImpl<PhysPageNum> for u64 {
    open spec fn obeys_from_spec() -> bool {
        true
    }

    open spec fn from_spec(v: PhysPageNum) -> u64 {
        v.0
    }
}

impl From<VirtAddr> for u64 {
    fn from(v: VirtAddr) -> (r: u64) {
        v.0
    }
}

impl FromSpecImpl<VirtAddr> for u64 {
    open spec fn obeys_from_spec() -> bool {
        true
    }

    open spec fn from_spec(v: VirtAddr) -> u64 {
        v.0
    }
}

impl From<VirtPageNum> for u64 {
    fn from(v: VirtPageNum) -> (r: u64) {
        v.0
    }
}

impl FromSpecImpl<VirtPageNum> for u64 {
    open spec fn obeys_from_spec() -> bool {
        true
    }

    open spec fn from_spec(v: VirtPageNum) -> u64 {
        v.0
    }
}

impl VirtAddr {
    /// The address is at most 39 bits wide.
    pub open spec fn is_valid(self) -> bool {
        self.0 < VA_LIMIT
    }

    /// The page that holds this address.
    pub open spec fn spec_floor(&self) -> VirtPageNum {
        VirtPageNum(self.0 / PAGE_BYTES)
    }

    /// The first page that starts at or after this address.
    pub open spec fn spec_ceil(&self) -> VirtPageNum {
        VirtPageNum(((self.0 + PAGE_BYTES - 1) / PAGE_BYTES as int) as u64)
    }

    /// The position of this address within its page.
    pub open spec fn spec_page_offset(&self) -> u64 {
        self.0 % PAGE_BYTES
    }

    /// The address is the first byte of a page.
    pub open spec fn spec_aligned(&self) -> bool {
        self.0 % PAGE_BYTES == 0
    }

    /// The address of the first byte of page `v`, truncated to 64 bits.
    pub open spec fn of_page(v: VirtPageNum) -> VirtAddr {
        VirtAddr(v.0 << 12)
    }

    /// Rounds down to a page number.
    #[verifier::when_used_as_spec(spec_floor)]
    pub fn floor(&self) -> (r: VirtPageNum)
        ensures
            r == self.spec_floor(),
    {
        VirtPageNum(self.0 / PAGE_BYTES)
    }

    /// Rounds up to a page number.
    #[verifier::when_used_as_spec(spec_ceil)]
    pub fn ceil(&self) -> (r: VirtPageNum)
        requires
            self.0 + (PAGE_BYTES - 1) <= u64::MAX,
        ensures
            r == self.spec_ceil(),
    {
        VirtPageNum((self.0 + (PAGE_BYTES - 1)) / PAGE_BYTES)
    }

    /// The low 12 bits of the address.
    #[verifier::when_used_as_spec(spec_page_offset)]
    pub fn page_offset(&self) -> (r: u64)
        ensures
            r == self.spec_page_offset(),
            r < PAGE_BYTES,
    {
        proof {
            lemma_address_bits(self.0);
        }
        self.0 & (PAGE_BYTES - 1)
    }

    /// Whether the address is the first byte of its page.
    #[verifier::when_used_as_spec(spec_aligned)]
    pub fn aligned(&self) -> (r: bool)
        ensures
            r == self.spec_aligned(),
    {
        self.page_offset() == 0
    }
}

impl PhysAddr {
    /// The address is at most 56 bits wide.
    pub open spec fn is_valid(self) -> bool {
        self.0 < PA_LIMIT
    }

    /// The page that holds this address.
    pub open spec fn spec_floor(&self) -> PhysPageNum {
        PhysPageNum(self.0 / PAGE_BYTES)
    }

    /// The first page that starts at or after this address.
    pub open spec fn spec_ceil(&self) -> PhysPageNum {
        PhysPageNum(((self.0 + PAGE_BYTES - 1) / PAGE_BYTES as int) as u64)
    }

    /// The position of this address within its page.
    pub open spec fn spec_page_offset(&self) -> u64 {
        self.0 % PAGE_BYTES
    }

    /// The address is the first byte of a page.
    pub open spec fn spec_aligned(&self) -> bool {
        self.0 % PAGE_BYTES == 0
    }

    /// The address of the first byte of page `v`, truncated to 64 bits.
    pub open spec fn of_page(v: PhysPageNum) -> PhysAddr {
        PhysAddr(v.0 << 12)
    }

    /// Rounds down to a page number.
    #[verifier::when_used_as_spec(spec_floor)]
    pub fn floor(&self) -> (r: PhysPageNum)
        ensures
            r == self.spec_floor(),
    {
        PhysPageNum(self.0 / PAGE_BYTES)
    }

    /// Rounds up to a page number.
    #[verifier::when_used_as_spec(spec_ceil)]
    pub fn ceil(&self) -> (r: PhysPageNum)
        requires
            self.0 + (PAGE_BYTES - 1) <= u64::MAX,
        ensures
            r == self.spec_ceil(),
    {
        PhysPageNum((self.0 + (PAGE_BYTES - 1)) / PAGE_BYTES)
    }

    /// The low 12 bits of the address.
    #[verifier::when_used_as_spec(spec_page_offset)]
    pub fn page_offset(&self) -> (r: u64)
        ensures
            r == self.spec_page_offset(),
            r < PAGE_BYTES,
    {
        proof {
            lemma_address_bits(self.0);
        }
        self.0 & (PAGE_BYTES - 1)
    }

    /// Whether the address is the first byte of its page.
    #[verifier::when_used_as_spec(spec_aligned)]
    pub fn aligned(&self) -> (r: bool)
        ensures
            r == self.spec_aligned(),
    {
        self.page_offset() == 0
    }
}

/// Bytes in a page, as used throughout this module.
pub const PAGE_BYTES: u64 = 0x1000;

impl From<VirtPageNum> for VirtAddr {
    /// The address of the first byte of the page.
    fn from(v: VirtPageNum) -> (r: VirtAddr) {
        VirtAddr(v.0 << 12)
    }
}

impl FromSpecImpl<VirtPageNum> for VirtAddr {
    open spec fn obeys_from_spec() -> bool {
        true
    }

    open spec fn from_spec(v: VirtPageNum) -> VirtAddr {
        VirtAddr::of_page(v)
    }
}

impl From<PhysPageNum> for PhysAddr {
    /// The address of the first byte of the page.
    fn from(v: PhysPageNum) -> (r: PhysAddr) {
        PhysAddr(v.0 << 12)
    }
}

impl FromSpecImpl<PhysPageNum> for PhysAddr {
    open spec fn obeys_from_spec() -> bool {
        true
    }

    open spec fn from_spec(v: PhysPageNum) -> PhysAddr {
        PhysAddr::of_page(v)
    }
}

impl VirtPageNum {
    /// The page number is at most 27 bits wide.
    pub open spec fn is_valid(self) -> bool {
        self.0 < VPN_LIMIT
    }

    /// The page number of a page-aligned address.
    pub fn from_addr(v: VirtAddr) -> (r: VirtPageNum)
        requires
            v.aligned(),
        ensures
            r == v.floor(),
            r.0 * PAGE_BYTES == v.0,
    {
        v.floor()
    }

    /// The index into the page table of the given level (0 is the root) that
    /// a walk for this page number uses: 9 bits each, the highest first.
    pub open spec fn index(self, level: int) -> int {
        if level == 0 {
            (self.0 as int / 0x4_0000) % 512
        } else if level == 1 {
            (self.0 as int / 512) % 512
        } else {
            self.0 as int % 512
        }
    }

    /// The three page-table indices of this page number, the root's first.
    /// Only the low 27 bits of the page number count.
    pub fn indexes(&self) -> (idx: [usize; 3])
        ensures
            idx[0] == self.index(0),
            idx[1] == self.index(1),
            idx[2] == self.index(2),
            idx[0] < 512 && idx[1] < 512 && idx[2] < 512,
    {
        let vpn: u64 = self.0;
        let low: u64 = vpn & 511;
        let mid: u64 = (vpn >> 9) & 511;
        let high: u64 = ((vpn >> 9) >> 9) & 511;
        proof {
            lemma_address_bits(vpn);
            lemma_address_bits(vpn >> 9);
            lemma_address_bits((vpn >> 9) >> 9);
        }
        [high as usize, mid as usize, low as usize]
    }
}

impl PhysPageNum {
    /// The page number is at most 44 bits wide.
    pub open spec fn is_valid(self) -> bool {
        self.0 < PPN_LIMIT
    }

    /// The page number of a page-aligned address.
    pub fn from_addr(v: PhysAddr) -> (r: PhysPageNum)
        requires
            v.aligned(),
        ensures
            r == v.floor(),
            r.0 * PAGE_BYTES == v.0,
    {
        v.floor()
    }
}

/// Two page numbers of at most 27 bits with the same three indices are equal.
pub proof fn lemma_indexes_injective(a: VirtPageNum, b: VirtPageNum)
    requires
        a.is_valid(),
        b.is_valid(),
        a.index(0) == b.index(0),
        a.index(1) == b.index(1),
        a.index(2) == b.index(2),
    ensures
        a == b,
{
}

/// Rounding a valid physical address down to its page and adding the offset
/// back gives the address again.
pub proof fn lemma_phys_floor_round_trip(pa: PhysAddr)
    requires
        pa.is_valid(),
    ensures
        PhysAddr::of_page(pa.floor()).0 + pa.page_offset() == pa.0,
        pa.floor().is_valid(),
{
    lemma_address_bits(pa.floor().0);
}

/// Rounding a valid physical address up to a page gives the first page
/// boundary at or after the address.
pub proof fn lemma_phys_ceil_round_trip(pa: PhysAddr)
    requires
        pa.is_valid(),
    ensures
        PhysAddr::of_page(pa.ceil()).0 % PAGE_BYTES == 0,
        pa.0 <= PhysAddr::of_page(pa.ceil()).0 < pa.0 + PAGE_BYTES,
        pa.aligned() ==> PhysAddr::of_page(pa.ceil()) == pa,
{
    lemma_address_bits(pa.ceil().0);
}

/// Rounding a valid virtual address down to its page and adding the offset
/// back gives the address again.
pub proof fn lemma_virt_floor_round_trip(va: VirtAddr)
    requires
        va.is_valid(),
    ensures
        VirtAddr::of_page(va.floor()).0 + va.page_offset() == va.0,
        va.floor().is_valid(),
{
    lemma_address_bits(va.floor().0);
}

/// Rounding a valid virtual address up to a page gives the first page
/// boundary at or after the address.
pub proof fn lemma_virt_ceil_round_trip(va: VirtAddr)
    requires
        va.is_valid(),
    ensures
        VirtAddr::of_page(va.ceil()).0 % PAGE_BYTES == 0,
        va.0 <= VirtAddr::of_page(va.ceil()).0 < va.0 + PAGE_BYTES,
        va.aligned() ==> VirtAddr::of_page(va.ceil()) == va,
{
    lemma_address_bits(va.ceil().0);
}

/// A value that has a successor, such as a page number.
pub trait StepByOne: Sized {
    /// The position of the value on the number line.
    spec fn rank(&self) -> int;

    /// Whether the value has a successor.
    spec fn can_step(&self) -> bool;

    /// Replaces the value by its successor.
    fn step(&mut self)
        requires
            old(self).can_step(),
        ensures
            final(self).rank() == old(self).rank() + 1,
    ;

    /// Whether the two values stand at the same position.
    fn meets(&self, other: &Self) -> (b: bool)
        ensures
            b == (self.rank() == other.rank()),
    ;

    /// A value below another one has a successor.
    proof fn lemma_below_can_step(&self, other: &Self)
        requires
            self.rank() < other.rank(),
        ensures
            self.can_step(),
    ;
}

impl StepByOne for VirtPageNum {
    open spec fn rank(&self) -> int {
        self.0 as int
    }

    open spec fn can_step(&self) -> bool {
        self.0 < u64::MAX
    }

    fn step(&mut self) {
        self.0 += 1;
    }

    fn meets(&self, other: &Self) -> (b: bool) {
        self.0 == other.0
    }

    proof fn lemma_below_can_step(&self, other: &Self) {
    }
}

/// A half-open range `[start, end)` of values that can be stepped through.
#[derive(Copy, Clone)]
pub struct SimpleRange<T: StepByOne + Copy> {
    l: T,
    r: T,
}

impl<T: StepByOne + Copy> SimpleRange<T> {
    /// The first value of the range.
    pub closed spec fn start(&self) -> T {
        self.l
    }

    /// The value just past the last one of the range.
    pub closed spec fn end(&self) -> T {
        self.r
    }

    /// The start is not past the end.
    pub open spec fn wf(&self) -> bool {
        self.start().rank() <= self.end().rank()
    }

    /// The number of values in the range.
    pub open spec fn count(&self) -> int {
        self.end().rank() - self.start().rank()
    }

    /// The range from `start` up to, but without, `end`.
    pub fn new(start: T, end: T) -> (r: Self)
        requires
            start.rank() <= end.rank(),
        ensures
            r.start() == start,
            r.end() == end,
            r.wf(),
    {
        Self { l: start, r: end }
    }

    /// The first value of the range.
    pub fn get_start(&self) -> (r: T)
        ensures
            r == self.start(),
    {
        self.l
    }

    /// The value just past the last one of the range.
    pub fn get_end(&self) -> (r: T)
        ensures
            r == self.end(),
    {
        self.r
    }

    /// A cursor that stands at the start of the range.
    pub fn into_iter(self) -> (it: SimpleRangeIterator<T>)
        ensures
            it.position() == self.start(),
            it.limit() == self.end(),
    {
        SimpleRangeIterator::new(self.l, self.r)
    }
}

/// A cursor that walks through a range one step at a time.
pub struct SimpleRangeIterator<T: StepByOne + Copy> {
    current: T,
    end: T,
}

impl<T: StepByOne + Copy> SimpleRangeIterator<T> {
    /// The value that the cursor yields next, unless it is at its limit.
    pub closed spec fn position(&self) -> T {
        self.current
    }

    /// The value at which the cursor stops.
    pub closed spec fn limit(&self) -> T {
        self.end
    }

    /// A cursor that stands at `l` and stops at `r`.
    pub fn new(l: T, r: T) -> (it: Self)
        ensures
            it.position() == l,
            it.limit() == r,
    {
        Self { current: l, end: r }
    }

    /// Yields the value at the cursor and moves one step on; yields nothing
    /// while the cursor is at its limit. The value at the cursor must have
    /// a successor unless the cursor is at its limit.
    pub fn next(&mut self) -> (r: Option<T>)
        requires
            old(self).position().rank() != old(self).limit().rank() ==> old(
                self,
            ).position().can_step(),
        ensures
            final(self).limit() == old(self).limit(),
            old(self).position().rank() == old(self).limit().rank() ==> {
                &&& r.is_none()
                &&& final(self).position() == old(self).position()
            },
            old(self).position().rank() != old(self).limit().rank() ==> {
                &&& r == Some(old(self).position())
                &&& final(self).position().rank() == old(self).position().rank() + 1
            },
    {
        if self.current.meets(&self.end) {
            None
        } else {
            let t = self.current;
            self.current.step();
            Some(t)
        }
    }
}

/// A range of virtual page numbers.
pub type VPNRange = SimpleRange<VirtPageNum>;

} // verus!
