//! Page-table entries and the three-level page table.

use crate::address::{lemma_address_bits, PhysPageNum, VirtPageNum, PPN_LIMIT};
use crate::frame_allocator::{
    frame_alloc, frame_kept, others_untouched, FrameTracker, StackFrameAllocator,
};
use crate::memory::PhysMemory;
use vstd::prelude::*;

verus! {

/// The flag bits of a page-table entry.
#[derive(Copy, Clone, Debug, PartialEq, Eq, Structural)]
pub struct PTEFlags {
    /// The flags as a byte, one bit each.
    pub bits: u8,
}

impl PTEFlags {
    /// The entry is valid.
    #[allow(non_snake_case)]
    #[verifier::spinoff_prover]
    pub fn V() -> (f: PTEFlags)
        ensures
            f.bits() == 0x01u8,
    {
        PTEFlags { bits: 0x01 }
    }

    /// The page can be read.
    #[allow(non_snake_case)]
    #[verifier::spinoff_prover]
    pub fn R() -> (f: PTEFlags)
        ensures
            f.bits() == 0x02u8,
    {
        PTEFlags { bits: 0x02 }
    }

    /// The page can be written.
    #[allow(non_snake_case)]
    #[verifier::spinoff_prover]
    pub fn W() -> (f: PTEFlags)
        ensures
            f.bits() == 0x04u8,
    {
        PTEFlags { bits: 0x04 }
    }

    /// Instructions can be fetched from the page.
    #[allow(non_snake_case)]
    #[verifier::spinoff_prover]
    pub fn X() -> (f: PTEFlags)
        ensures
            f.bits() == 0x08u8,
    {
        PTEFlags { bits: 0x08 }
    }

    /// The page can be accessed in user mode.
    #[allow(non_snake_case)]
    #[verifier::spinoff_prover]
    pub fn U() -> (f: PTEFlags)
        ensures
            f.bits() == 0x10u8,
    {
        PTEFlags { bits: 0x10 }
    }

    /// The mapping exists in every address space.
    #[allow(non_snake_case)]
    #[verifier::spinoff_prover]
    pub fn G() -> (f: PTEFlags)
        ensures
            f.bits() == 0x20u8,
    {
        PTEFlags { bits: 0x20 }
    }

    /// The page was accessed.
    #[allow(non_snake_case)]
    #[verifier::spinoff_prover]
    pub fn A() -> (f: PTEFlags)
        ensures
            f.bits() == 0x40u8,
    {
        PTEFlags { bits: 0x40 }
    }

    /// The page was written.
    #[allow(non_snake_case)]
    #[verifier::spinoff_prover]
    pub fn D() -> (f: PTEFlags)
        ensures
            f.bits() == 0x80u8,
    {
        PTEFlags { bits: 0x80 }
    }

    /// The flags as a byte.
    pub open spec fn spec_bits(&self) -> u8 {
        self.bits
    }

    /// The flags as a byte.
    #[verifier::when_used_as_spec(spec_bits)]
    #[verifier::spinoff_prover]
    pub fn bits(&self) -> (b: u8)
        ensures
            b == self.spec_bits(),
    {
        self.bits
    }

    /// The flags that `bits` encodes. Every bit is a flag, so every byte
    /// encodes a set of flags.
    #[verifier::spinoff_prover]
    pub fn from_bits(bits: u8) -> (r: Option<PTEFlags>)
        ensures
            r.is_some(),
            r.unwrap().bits() == bits,
    {
        Some(PTEFlags { bits })
    }

    /// No flag.
    #[verifier::spinoff_prover]
    pub fn empty() -> (r: PTEFlags)
        ensures
            r.bits() == 0,
    {
        PTEFlags { bits: 0 }
    }

    /// The flags of `self` and those of `other`.
    #[verifier::spinoff_prover]
    pub fn union(self, other: PTEFlags) -> (r: PTEFlags)
        ensures
            r.bits() == self.bits() | other.bits(),
    {
        PTEFlags { bits: self.bits | other.bits }
    }

    /// The flags that are in both `self` and `other`.
    #[verifier::spinoff_prover]
    pub fn intersection(self, other: PTEFlags) -> (r: PTEFlags)
        ensures
            r.bits() == self.bits() & other.bits(),
    {
        PTEFlags { bits: self.bits & other.bits }
    }

    /// Whether every flag of `other` is in `self`.
    #[verifier::spinoff_prover]
    pub fn contains(&self, other: PTEFlags) -> (r: bool)
        ensures
            r == (self.bits() & other.bits() == other.bits()),
    {
        self.bits & other.bits == other.bits
    }

    /// Whether no flag is set.
    #[verifier::spinoff_prover]
    pub fn is_empty(&self) -> (r: bool)
        ensures
            r == (self.bits() == 0),
    {
        self.bits == 0
    }
}

/// Facts about how an entry packs a page number and flags.
#[verifier::spinoff_prover]
pub proof fn lemma_entry_bits(ppn: u64, flags: u8)
    by (bit_vector)
    ensures
        (((ppn << 10u64) | (flags as u64)) as u8) == flags,
        ppn < 0x1000_0000_0000u64 ==> (((ppn << 10u64) | (flags as u64)) >> 10u64)
            & 0xfff_ffff_ffffu64 == ppn,
{
}

/// The valid flag of an entry is the lowest bit of its flags.
#[verifier::spinoff_prover]
pub proof fn lemma_entry_valid_bit(ppn: u64, flags: u8)
    by (bit_vector)
    ensures
        (((ppn << 10u64) | (flags as u64)) % 2u64 == 1u64) <==> (flags % 2u8 == 1u8),
{
}

/// Facts about the lowest bit of a byte of flags.
#[verifier::spinoff_prover]
pub proof fn lemma_low_flag(flags: u8)
    by (bit_vector)
    ensures
        (flags | 1u8) % 2u8 == 1u8,
        (flags & 1u8 != 0u8) <==> (flags % 2u8 == 1u8),
{
}

/// Facts about reading single flags off the bits of an entry.
#[verifier::spinoff_prover]
pub proof fn lemma_flag_bits(bits: u64)
    by (bit_vector)
    ensures
        ((bits as u8) & 1u8 != 0u8) <==> (bits % 2u64 == 1u64),
        ((bits as u8) & 2u8 != 0u8) <==> ((bits / 2u64) % 2u64 == 1u64),
        ((bits as u8) & 4u8 != 0u8) <==> ((bits / 4u64) % 2u64 == 1u64),
        ((bits as u8) & 8u8 != 0u8) <==> ((bits / 8u64) % 2u64 == 1u64),
{
}

/// One slot of a page table: a physical page number in bits 10 to 53 and
/// eight flag bits in bits 0 to 7.
#[derive(Copy, Clone, Debug, PartialEq, Eq, Structural)]
pub struct PageTableEntry {
    /// The entry as the hardware reads it.
    pub bits: u64,
}

impl PageTableEntry {
    /// The bits of an entry that points to `ppn` with the flags `flags`.
    pub open spec fn spec_new(ppn: PhysPageNum, flags: PTEFlags) -> PageTableEntry {
        PageTableEntry { bits: (ppn.0 << 10) | (flags.bits() as u64) }
    }

    /// The page number that the entry holds.
    pub open spec fn spec_ppn(&self) -> PhysPageNum {
        PhysPageNum((self.bits >> 10) & 0xfff_ffff_ffff)
    }

    /// The flags that the entry holds, as a byte.
    pub open spec fn flag_bits(&self) -> u8 {
        self.bits as u8
    }

    /// The entry's valid flag is set.
    pub open spec fn spec_is_valid(&self) -> bool {
        self.bits % 2 == 1
    }

    /// An entry that points to `ppn` with the flags `flags`.
    #[verifier::when_used_as_spec(spec_new)]
    #[verifier::spinoff_prover]
    pub fn new(ppn: PhysPageNum, flags: PTEFlags) -> (e: PageTableEntry)
        ensures
            e == Self::spec_new(ppn, flags),
            e.flag_bits() == flags.bits(),
            ppn.is_valid() ==> e.spec_ppn() == ppn,
            e.spec_is_valid() == (flags.bits() % 2 == 1),
    {
        proof {
            lemma_entry_bits(ppn.0, flags.bits());
            lemma_entry_valid_bit(ppn.0, flags.bits());
        }
        PageTableEntry { bits: (ppn.0 << 10) | (flags.bits() as u64) }
    }

    /// The entry of all zeros, which is not valid.
    #[verifier::spinoff_prover]
    pub fn empty() -> (e: PageTableEntry)
        ensures
            e.bits == 0,
            !e.spec_is_valid(),
    {
        PageTableEntry { bits: 0 }
    }

    /// The page number that the entry holds.
    #[verifier::when_used_as_spec(spec_ppn)]
    #[verifier::spinoff_prover]
    pub fn ppn(&self) -> (p: PhysPageNum)
        ensures
            p == self.spec_ppn(),
            p.is_valid(),
    {
        proof {
            lemma_address_bits(self.bits >> 10);
        }
        PhysPageNum::from((self.bits >> 10) & crate::address::PPN_MASK)
    }

    /// The flags that the entry holds.
    #[verifier::spinoff_prover]
    pub fn flags(&self) -> (f: PTEFlags)
        ensures
            f.bits() == self.flag_bits(),
    {
        match PTEFlags::from_bits(self.bits as u8) {
            Some(f) => f,
            None => PTEFlags::empty(),
        }
    }

    /// Whether the valid flag is set.
    #[verifier::when_used_as_spec(spec_is_valid)]
    #[verifier::spinoff_prover]
    pub fn is_valid(&self) -> (r: bool)
        ensures
            r == self.spec_is_valid(),
    {
        proof {
            lemma_flag_bits(self.bits);
        }
        !self.flags().intersection(PTEFlags::V()).is_empty()
    }

    /// Whether the page can be read.
    #[verifier::spinoff_prover]
    pub fn readable(&self) -> (r: bool)
        ensures
            r == ((self.bits / 2) % 2 == 1),
    {
        proof {
            lemma_flag_bits(self.bits);
        }
        !self.flags().intersection(PTEFlags::R()).is_empty()
    }

    /// Whether the page can be written.
    #[verifier::spinoff_prover]
    pub fn writable(&self) -> (r: bool)
        ensures
            r == ((self.bits / 4) % 2 == 1),
    {
        proof {
            lemma_flag_bits(self.bits);
        }
        !self.flags().intersection(PTEFlags::W()).is_empty()
    }

    /// Whether instructions can be fetched from the page.
    #[verifier::spinoff_prover]
    pub fn executable(&self) -> (r: bool)
        ensures
            r == ((self.bits / 8) % 2 == 1),
    {
        proof {
            lemma_flag_bits(self.bits);
        }
        !self.flags().intersection(PTEFlags::X()).is_empty()
    }
}

/// Why a page-table operation was rejected.
#[derive(Copy, Clone, Debug, PartialEq, Eq, Structural)]
pub enum MapError {
    /// The page to map already has a valid mapping.
    AlreadyMapped,
    /// The page to unmap has no valid mapping.
    NotMapped,
    /// No frame is left for a new node of the table.
    OutOfFrames,
}

/// Entry `idx` of the table node in frame `node`.
pub open spec fn entry_at(mem: &PhysMemory, node: PhysPageNum, idx: int) -> PageTableEntry {
    PageTableEntry { bits: mem.word(node, idx) }
}

/// The second-level node that a walk for `vpn` reaches from `root`, if the
/// root's entry for it is valid.
pub open spec fn node1(mem: &PhysMemory, root: PhysPageNum, vpn: VirtPageNum) -> Option<
    PhysPageNum,
> {
    let e = entry_at(mem, root, vpn.index(0));
    if e.is_valid() {
        Some(e.ppn())
    } else {
        None
    }
}

/// The third-level node that a walk for `vpn` reaches from `root`, if both
/// entries on the way are valid.
pub open spec fn node2(mem: &PhysMemory, root: PhysPageNum, vpn: VirtPageNum) -> Option<
    PhysPageNum,
> {
    match node1(mem, root, vpn) {
        Some(n) => {
            let e = entry_at(mem, n, vpn.index(1));
            if e.is_valid() {
                Some(e.ppn())
            } else {
                None
            }
        },
        None => None,
    }
}

/// The last entry that a walk for `vpn` reaches, valid or not; `None` if the
/// walk ends at an invalid entry before.
pub open spec fn leaf_entry(mem: &PhysMemory, root: PhysPageNum, vpn: VirtPageNum) -> Option<
    PageTableEntry,
> {
    match node2(mem, root, vpn) {
        Some(n) => Some(entry_at(mem, n, vpn.index(2))),
        None => None,
    }
}

/// The valid entry that maps `vpn` in the table at `root`, if there is one.
pub open spec fn translation(mem: &PhysMemory, root: PhysPageNum, vpn: VirtPageNum) -> Option<
    PageTableEntry,
> {
    match leaf_entry(mem, root, vpn) {
        Some(e) => if e.is_valid() {
            Some(e)
        } else {
            None
        },
        None => None,
    }
}

/// Every node that a walk from `root` can reach lies in `mem`.
pub open spec fn walkable(mem: &PhysMemory, root: PhysPageNum) -> bool {
    &&& mem.contains(root)
    &&& forall|v: VirtPageNum| #[trigger]
        node1(mem, root, v) matches Some(n) ==> mem.contains(n)
    &&& forall|v: VirtPageNum| #[trigger]
        node2(mem, root, v) matches Some(n) ==> mem.contains(n)
}

/// The entry through which a walk for `vpn` leaves the root, for `level` 0,
/// or the second-level node, for `level` 1.
pub open spec fn inner_entry(
    mem: &PhysMemory,
    root: PhysPageNum,
    vpn: VirtPageNum,
    level: int,
) -> PageTableEntry {
    if level == 0 {
        entry_at(mem, root, vpn.index(0))
    } else {
        entry_at(mem, node1(mem, root, vpn).unwrap(), vpn.index(1))
    }
}

/// The two page numbers use the same three table indices.
pub open spec fn same_indexes(v: VirtPageNum, w: VirtPageNum) -> bool {
    v.index(0) == w.index(0) && v.index(1) == w.index(1) && v.index(2) == w.index(2)
}

/// The nodes reachable from `root` form a tree whose nodes are the frames of
/// `owned`: every node is owned, no node is the root, no node is reached on
/// two different paths, and an entry that leads to a node carries the valid
/// flag and no other.
#[verifier::opaque]
pub open spec fn tree(mem: &PhysMemory, root: PhysPageNum, owned: Seq<PhysPageNum>) -> bool {
    &&& forall|v: VirtPageNum| #[trigger]
        node1(mem, root, v) matches Some(n) ==> owned.contains(n) && n != root
    &&& forall|v: VirtPageNum| #[trigger]
        node2(mem, root, v) matches Some(n) ==> owned.contains(n) && n != root
    &&& forall|v: VirtPageNum, w: VirtPageNum|
        (#[trigger] node1(mem, root, v)).is_some() ==> node1(mem, root, v) != #[trigger] node2(
            mem,
            root,
            w,
        )
    &&& forall|v: VirtPageNum, w: VirtPageNum|
        (#[trigger] node1(mem, root, v)).is_some() && node1(mem, root, v) == #[trigger] node1(
            mem,
            root,
            w,
        ) ==> v.index(0) == w.index(0)
    &&& forall|v: VirtPageNum, w: VirtPageNum|
        (#[trigger] node2(mem, root, v)).is_some() && node2(mem, root, v) == #[trigger] node2(
            mem,
            root,
            w,
        ) ==> v.index(0) == w.index(0) && v.index(1) == w.index(1)
    &&& forall|v: VirtPageNum|
        (#[trigger] node1(mem, root, v)).is_some() ==> inner_entry(mem, root, v, 0).flag_bits()
            == 0x01
    &&& forall|v: VirtPageNum|
        (#[trigger] node2(mem, root, v)).is_some() ==> inner_entry(mem, root, v, 1).flag_bits()
            == 0x01
}

/// The memories differ at most in word `i` of page `n`.
pub open spec fn one_word_changed(m0: &PhysMemory, m1: &PhysMemory, n: PhysPageNum, i: int) -> bool {
    &&& m1.same_range(m0)
    &&& forall|p: PhysPageNum, j: int|
        0 <= j < 512 && m0.contains(p) && (p != n || j != i) ==> #[trigger] m1.word(p, j)
            == m0.word(p, j)
}

/// The owned frames lie in memory and the root is one of them.
pub open spec fn owned_in(mem: &PhysMemory, root: PhysPageNum, owned: Seq<PhysPageNum>) -> bool {
    &&& owned.contains(root)
    &&& forall|p: PhysPageNum| #[trigger] owned.contains(p) ==> mem.contains(p)
}

/// A tree whose frames hold the same words in another memory is the same
/// tree there.
#[verifier::spinoff_prover]
pub proof fn lemma_tree_same_pages(
    m0: &PhysMemory,
    m1: &PhysMemory,
    root: PhysPageNum,
    owned: Seq<PhysPageNum>,
)
    requires
        tree(m0, root, owned),
        owned_in(m0, root, owned),
        m1.same_range(m0),
        forall|p: PhysPageNum| #[trigger] owned.contains(p) ==> m1.same_page(m0, p),
    ensures
        tree(m1, root, owned),
        owned_in(m1, root, owned),
        forall|v: VirtPageNum| #[trigger] node1(m1, root, v) == node1(m0, root, v),
        forall|v: VirtPageNum| #[trigger] node2(m1, root, v) == node2(m0, root, v),
        forall|v: VirtPageNum| #[trigger] leaf_entry(m1, root, v) == leaf_entry(m0, root, v),
        forall|v: VirtPageNum| #[trigger] translation(m1, root, v) == translation(m0, root, v),
{
    reveal(tree);
    assert forall|v: VirtPageNum| #[trigger] node1(m1, root, v) == node1(m0, root, v) by {
        assert(m1.same_page(m0, root));
    }
    assert forall|v: VirtPageNum| #[trigger] node2(m1, root, v) == node2(m0, root, v) by {
        assert(node1(m1, root, v) == node1(m0, root, v));
        if let Some(n) = node1(m0, root, v) {
            assert(owned.contains(n));
            assert(m1.same_page(m0, n));
        }
    }
    assert forall|v: VirtPageNum| #[trigger] leaf_entry(m1, root, v) == leaf_entry(m0, root, v) by {
        assert(node2(m1, root, v) == node2(m0, root, v));
        if let Some(n) = node2(m0, root, v) {
            assert(owned.contains(n));
            assert(m1.same_page(m0, n));
        }
    }
    assert forall|v: VirtPageNum| #[trigger] translation(m1, root, v) == translation(m0, root, v) by {
        assert(leaf_entry(m1, root, v) == leaf_entry(m0, root, v));
    }
    assert forall|v: VirtPageNum| (#[trigger] node1(m1, root, v)).is_some() implies inner_entry(
        m1,
        root,
        v,
        0,
    ).flag_bits() == 0x01 by {
        assert(node1(m1, root, v) == node1(m0, root, v));
        assert(m1.same_page(m0, root));
        assert(m1.word(root, v.index(0)) == m0.word(root, v.index(0)));
        assert(inner_entry(m0, root, v, 0).flag_bits() == 0x01);
    }
    assert forall|v: VirtPageNum| (#[trigger] node2(m1, root, v)).is_some() implies inner_entry(
        m1,
        root,
        v,
        1,
    ).flag_bits() == 0x01 by {
        assert(node2(m1, root, v) == node2(m0, root, v));
        assert(node1(m1, root, v) == node1(m0, root, v));
        let n = node1(m0, root, v).unwrap();
        assert(owned.contains(n));
        assert(m1.same_page(m0, n));
        assert(m1.word(n, v.index(1)) == m0.word(n, v.index(1)));
        assert(inner_entry(m0, root, v, 1).flag_bits() == 0x01);
    }
}

/// Writing the last entry of the walk for `vpn` changes what `vpn` maps to
/// and nothing else.
#[verifier::spinoff_prover]
pub proof fn lemma_leaf_write(
    m0: &PhysMemory,
    m1: &PhysMemory,
    root: PhysPageNum,
    owned: Seq<PhysPageNum>,
    vpn: VirtPageNum,
    leaf: PhysPageNum,
    value: u64,
)
    requires
        tree(m0, root, owned),
        owned_in(m0, root, owned),
        node2(m0, root, vpn) == Some(leaf),
        one_word_changed(m0, m1, leaf, vpn.index(2)),
        m1.word(leaf, vpn.index(2)) == value,
    ensures
        tree(m1, root, owned),
        owned_in(m1, root, owned),
        forall|v: VirtPageNum| #[trigger] node1(m1, root, v) == node1(m0, root, v),
        forall|v: VirtPageNum| #[trigger] node2(m1, root, v) == node2(m0, root, v),
        forall|v: VirtPageNum| #[trigger]
            leaf_entry(m1, root, v) == if same_indexes(v, vpn) {
                Some(PageTableEntry { bits: value })
            } else {
                leaf_entry(m0, root, v)
            },
{
    reveal(tree);
    assert(leaf != root);
    assert forall|v: VirtPageNum| #[trigger] node1(m1, root, v) == node1(m0, root, v) by {
        assert(m1.word(root, v.index(0)) == m0.word(root, v.index(0)));
    }
    assert forall|v: VirtPageNum| #[trigger] node2(m1, root, v) == node2(m0, root, v) by {
        assert(node1(m1, root, v) == node1(m0, root, v));
        if let Some(n) = node1(m0, root, v) {
            assert(node1(m0, root, v) != node2(m0, root, vpn));
            assert(owned.contains(n));
            assert(m1.word(n, v.index(1)) == m0.word(n, v.index(1)));
        }
    }
    assert forall|v: VirtPageNum| #[trigger]
        leaf_entry(m1, root, v) == if same_indexes(v, vpn) {
            Some(PageTableEntry { bits: value })
        } else {
            leaf_entry(m0, root, v)
        } by {
        assert(node2(m1, root, v) == node2(m0, root, v));
        if let Some(n) = node2(m0, root, v) {
            assert(owned.contains(n));
            if same_indexes(v, vpn) {
                assert(node1(m0, root, v) == node1(m0, root, vpn));
                assert(node2(m0, root, v) == node2(m0, root, vpn));
            } else if n == leaf {
                assert(node2(m0, root, v) == node2(m0, root, vpn));
                assert(v.index(2) != vpn.index(2));
                assert(m1.word(n, v.index(2)) == m0.word(n, v.index(2)));
            } else {
                assert(m1.word(n, v.index(2)) == m0.word(n, v.index(2)));
            }
        } else {
            if same_indexes(v, vpn) {
                assert(node1(m0, root, v) == node1(m0, root, vpn));
                assert(node2(m0, root, v) == node2(m0, root, vpn));
            }
        }
    }
    assert forall|v: VirtPageNum| (#[trigger] node1(m1, root, v)).is_some() implies inner_entry(
        m1,
        root,
        v,
        0,
    ).flag_bits() == 0x01 by {
        assert(node1(m1, root, v) == node1(m0, root, v));
        assert(m1.word(root, v.index(0)) == m0.word(root, v.index(0)));
        assert(inner_entry(m0, root, v, 0).flag_bits() == 0x01);
    }
    assert forall|v: VirtPageNum| (#[trigger] node2(m1, root, v)).is_some() implies inner_entry(
        m1,
        root,
        v,
        1,
    ).flag_bits() == 0x01 by {
        assert(node2(m1, root, v) == node2(m0, root, v));
        assert(node1(m1, root, v) == node1(m0, root, v));
        let n = node1(m0, root, v).unwrap();
        assert(node1(m0, root, v) != node2(m0, root, vpn));
        assert(owned.contains(n));
        assert(m1.word(n, v.index(1)) == m0.word(n, v.index(1)));
        assert(inner_entry(m0, root, v, 1).flag_bits() == 0x01);
    }
}

/// Hanging a fresh, zeroed frame below the root, in a slot that was not
/// valid, adds one node to the tree and changes no translation.
#[verifier::spinoff_prover]
pub proof fn lemma_install_level1(
    m0: &PhysMemory,
    m1: &PhysMemory,
    root: PhysPageNum,
    owned: Seq<PhysPageNum>,
    vpn: VirtPageNum,
    fresh: PhysPageNum,
)
    requires
        tree(m0, root, owned),
        owned_in(m0, root, owned),
        node1(m0, root, vpn).is_none(),
        !owned.contains(fresh),
        m0.contains(fresh),
        m0.page_is_zero(fresh),
        fresh.is_valid(),
        one_word_changed(m0, m1, root, vpn.index(0)),
        entry_at(m1, root, vpn.index(0)).is_valid(),
        entry_at(m1, root, vpn.index(0)).ppn() == fresh,
        entry_at(m1, root, vpn.index(0)).flag_bits() == 0x01,
    ensures
        tree(m1, root, owned.push(fresh)),
        owned_in(m1, root, owned.push(fresh)),
        node1(m1, root, vpn) == Some(fresh),
        node2(m1, root, vpn).is_none(),
        m1.page_is_zero(fresh),
        forall|v: VirtPageNum| #[trigger] translation(m1, root, v) == translation(m0, root, v),
{
    reveal(tree);
    let owned1 = owned.push(fresh);
    assert(forall|p: PhysPageNum| owned.contains(p) ==> owned1.contains(p)) by {
        assert forall|p: PhysPageNum| owned.contains(p) implies owned1.contains(p) by {
            let i = choose|i: int| 0 <= i < owned.len() && owned[i] == p;
            assert(owned1[i] == p);
        }
    }
    assert(owned1.contains(fresh)) by {
        assert(owned1[owned.len() as int] == fresh);
    }
    assert(forall|p: PhysPageNum| owned1.contains(p) ==> owned.contains(p) || p == fresh) by {
        assert forall|p: PhysPageNum| owned1.contains(p) implies owned.contains(p) || p == fresh by {
            let i = choose|i: int| 0 <= i < owned1.len() && owned1[i] == p;
            if i < owned.len() {
                assert(owned[i] == p);
            }
        }
    }
    assert(fresh != root);
    assert(m1.page_is_zero(fresh)) by {
        assert forall|i: int| 0 <= i < 512 implies #[trigger] m1.word(fresh, i) == 0 by {
            assert(m0.word(fresh, i) == 0);
        }
    }
    let i0 = vpn.index(0);
    assert forall|v: VirtPageNum| #[trigger]
        node1(m1, root, v) == if v.index(0) == i0 {
            Some(fresh)
        } else {
            node1(m0, root, v)
        } by {
        if v.index(0) != i0 {
            assert(m1.word(root, v.index(0)) == m0.word(root, v.index(0)));
        }
    }
    assert forall|v: VirtPageNum| #[trigger]
        node2(m1, root, v) == if v.index(0) == i0 {
            None
        } else {
            node2(m0, root, v)
        } by {
        assert(node1(m1, root, v) == if v.index(0) == i0 {
            Some(fresh)
        } else {
            node1(m0, root, v)
        });
        if v.index(0) == i0 {
            assert(m1.word(fresh, v.index(1)) == 0);
        } else if let Some(n) = node1(m0, root, v) {
            assert(owned.contains(n) && n != root);
            assert(m1.word(n, v.index(1)) == m0.word(n, v.index(1)));
        }
    }
    assert forall|v: VirtPageNum| #[trigger] leaf_entry(m1, root, v) == leaf_entry(m0, root, v) by {
        assert(node2(m1, root, v) == if v.index(0) == i0 {
            None
        } else {
            node2(m0, root, v)
        });
        if v.index(0) == i0 {
            assert(node1(m0, root, v) == node1(m0, root, vpn));
        } else if let Some(n) = node2(m0, root, v) {
            assert(owned.contains(n) && n != root);
            assert(m1.word(n, v.index(2)) == m0.word(n, v.index(2)));
        }
    }
    assert forall|v: VirtPageNum| #[trigger] translation(m1, root, v) == translation(m0, root, v) by {
        assert(leaf_entry(m1, root, v) == leaf_entry(m0, root, v));
    }
    assert(node1(m1, root, vpn) == Some(fresh));
    assert(node2(m1, root, vpn).is_none());
    assert forall|v: VirtPageNum, w: VirtPageNum|
        (#[trigger] node1(m1, root, v)).is_some() implies node1(m1, root, v) != #[trigger] node2(
        m1,
        root,
        w,
    ) by {
        if w.index(0) != i0 {
            if let Some(n) = node2(m0, root, w) {
                assert(owned.contains(n));
                if v.index(0) != i0 {
                    assert(node1(m0, root, v) != node2(m0, root, w));
                }
            }
        }
    }
    assert forall|v: VirtPageNum, w: VirtPageNum|
        (#[trigger] node1(m1, root, v)).is_some() && node1(m1, root, v) == #[trigger] node1(
            m1,
            root,
            w,
        ) implies v.index(0) == w.index(0) by {
        if v.index(0) != i0 {
            let n = node1(m0, root, v).unwrap();
            assert(owned.contains(n));
        }
        if w.index(0) != i0 && v.index(0) == i0 {
            let n = node1(m0, root, w).unwrap();
            assert(owned.contains(n));
        }
    }
    assert forall|v: VirtPageNum, w: VirtPageNum|
        (#[trigger] node2(m1, root, v)).is_some() && node2(m1, root, v) == #[trigger] node2(
            m1,
            root,
            w,
        ) implies v.index(0) == w.index(0) && v.index(1) == w.index(1) by {
        assert(node2(m0, root, v) == node2(m0, root, w));
    }
    assert forall|v: VirtPageNum| (#[trigger] node1(m1, root, v)).is_some() implies inner_entry(
        m1,
        root,
        v,
        0,
    ).flag_bits() == 0x01 by {
        if v.index(0) != i0 {
            assert(m1.word(root, v.index(0)) == m0.word(root, v.index(0)));
            assert(node1(m1, root, v) == node1(m0, root, v));
            assert(inner_entry(m0, root, v, 0).flag_bits() == 0x01);
        }
    }
    assert forall|v: VirtPageNum| (#[trigger] node2(m1, root, v)).is_some() implies inner_entry(
        m1,
        root,
        v,
        1,
    ).flag_bits() == 0x01 by {
        assert(v.index(0) != i0);
        assert(node2(m1, root, v) == node2(m0, root, v));
        assert(node1(m1, root, v) == node1(m0, root, v));
        let n = node1(m0, root, v).unwrap();
        assert(owned.contains(n) && n != root);
        assert(m1.word(n, v.index(1)) == m0.word(n, v.index(1)));
        assert(inner_entry(m0, root, v, 1).flag_bits() == 0x01);
    }
}

/// Hanging a fresh, zeroed frame below a second-level node, in a slot that
/// was not valid, adds one node to the tree and changes no translation.
#[verifier::spinoff_prover]
pub proof fn lemma_install_level2(
    m0: &PhysMemory,
    m1: &PhysMemory,
    root: PhysPageNum,
    owned: Seq<PhysPageNum>,
    vpn: VirtPageNum,
    parent: PhysPageNum,
    fresh: PhysPageNum,
)
    requires
        tree(m0, root, owned),
        owned_in(m0, root, owned),
        node1(m0, root, vpn) == Some(parent),
        node2(m0, root, vpn).is_none(),
        !owned.contains(fresh),
        m0.contains(fresh),
        m0.page_is_zero(fresh),
        fresh.is_valid(),
        one_word_changed(m0, m1, parent, vpn.index(1)),
        entry_at(m1, parent, vpn.index(1)).is_valid(),
        entry_at(m1, parent, vpn.index(1)).ppn() == fresh,
        entry_at(m1, parent, vpn.index(1)).flag_bits() == 0x01,
    ensures
        tree(m1, root, owned.push(fresh)),
        owned_in(m1, root, owned.push(fresh)),
        node2(m1, root, vpn) == Some(fresh),
        m1.page_is_zero(fresh),
        forall|v: VirtPageNum| #[trigger] translation(m1, root, v) == translation(m0, root, v),
{
    reveal(tree);
    let owned1 = owned.push(fresh);
    assert(forall|p: PhysPageNum| owned.contains(p) ==> owned1.contains(p)) by {
        assert forall|p: PhysPageNum| owned.contains(p) implies owned1.contains(p) by {
            let i = choose|i: int| 0 <= i < owned.len() && owned[i] == p;
            assert(owned1[i] == p);
        }
    }
    assert(owned1.contains(fresh)) by {
        assert(owned1[owned.len() as int] == fresh);
    }
    assert(forall|p: PhysPageNum| owned1.contains(p) ==> owned.contains(p) || p == fresh) by {
        assert forall|p: PhysPageNum| owned1.contains(p) implies owned.contains(p) || p == fresh by {
            let i = choose|i: int| 0 <= i < owned1.len() && owned1[i] == p;
            if i < owned.len() {
                assert(owned[i] == p);
            }
        }
    }
    assert(owned.contains(parent) && parent != root);
    assert(fresh != root && fresh != parent);
    assert(m1.page_is_zero(fresh)) by {
        assert forall|i: int| 0 <= i < 512 implies #[trigger] m1.word(fresh, i) == 0 by {
            assert(m0.word(fresh, i) == 0);
        }
    }
    let i0 = vpn.index(0);
    let i1 = vpn.index(1);
    assert forall|v: VirtPageNum| #[trigger] node1(m1, root, v) == node1(m0, root, v) by {
        assert(m1.word(root, v.index(0)) == m0.word(root, v.index(0)));
    }
    assert forall|v: VirtPageNum| #[trigger]
        node2(m1, root, v) == if v.index(0) == i0 && v.index(1) == i1 {
            Some(fresh)
        } else {
            node2(m0, root, v)
        } by {
        assert(node1(m1, root, v) == node1(m0, root, v));
        if v.index(0) == i0 {
            assert(node1(m0, root, v) == node1(m0, root, vpn));
            if v.index(1) != i1 {
                assert(m1.word(parent, v.index(1)) == m0.word(parent, v.index(1)));
            }
        } else if let Some(n) = node1(m0, root, v) {
            assert(owned.contains(n));
            assert(n != parent) by {
                if n == parent {
                    assert(node1(m0, root, v) == node1(m0, root, vpn));
                }
            }
            assert(m1.word(n, v.index(1)) == m0.word(n, v.index(1)));
        }
    }
    assert forall|v: VirtPageNum| #[trigger] translation(m1, root, v) == translation(m0, root, v) by {
        assert(node2(m1, root, v) == if v.index(0) == i0 && v.index(1) == i1 {
            Some(fresh)
        } else {
            node2(m0, root, v)
        });
        if v.index(0) == i0 && v.index(1) == i1 {
            assert(node1(m0, root, v) == node1(m0, root, vpn));
            assert(node2(m0, root, v) == node2(m0, root, vpn));
            assert(m1.word(fresh, v.index(2)) == 0);
        } else if let Some(n) = node2(m0, root, v) {
            assert(owned.contains(n));
            assert(node1(m0, root, vpn) != node2(m0, root, v));
            assert(m1.word(n, v.index(2)) == m0.word(n, v.index(2)));
        }
    }
    assert(node2(m1, root, vpn) == Some(fresh));
    assert forall|v: VirtPageNum| (#[trigger] node2(m1, root, v)).is_some() implies owned1.contains(
        node2(m1, root, v).unwrap(),
    ) && node2(m1, root, v).unwrap() != root by {
        if !(v.index(0) == i0 && v.index(1) == i1) {
            if let Some(n) = node2(m0, root, v) {
                assert(owned.contains(n));
            }
        }
    }
    assert forall|v: VirtPageNum| (#[trigger] node1(m1, root, v)).is_some() implies owned1.contains(
        node1(m1, root, v).unwrap(),
    ) && node1(m1, root, v).unwrap() != root by {
        if let Some(n) = node1(m0, root, v) {
            assert(owned.contains(n));
        }
    }
    assert forall|v: VirtPageNum, w: VirtPageNum|
        (#[trigger] node1(m1, root, v)).is_some() implies node1(m1, root, v) != #[trigger] node2(
        m1,
        root,
        w,
    ) by {
        let n = node1(m0, root, v).unwrap();
        assert(owned.contains(n));
        if !(w.index(0) == i0 && w.index(1) == i1) {
            assert(node1(m0, root, v) != node2(m0, root, w));
        }
    }
    assert forall|v: VirtPageNum, w: VirtPageNum|
        (#[trigger] node1(m1, root, v)).is_some() && node1(m1, root, v) == #[trigger] node1(
            m1,
            root,
            w,
        ) implies v.index(0) == w.index(0) by {
        assert(node1(m0, root, v) == node1(m0, root, w));
    }
    assert forall|v: VirtPageNum, w: VirtPageNum|
        (#[trigger] node2(m1, root, v)).is_some() && node2(m1, root, v) == #[trigger] node2(
            m1,
            root,
            w,
        ) implies v.index(0) == w.index(0) && v.index(1) == w.index(1) by {
        let vn = v.index(0) == i0 && v.index(1) == i1;
        let wn = w.index(0) == i0 && w.index(1) == i1;
        if !vn {
            let n = node2(m0, root, v).unwrap();
            assert(owned.contains(n));
        }
        if !wn {
            let n = node2(m0, root, w).unwrap();
            assert(owned.contains(n));
        }
        if !vn && !wn {
            assert(node2(m0, root, v) == node2(m0, root, w));
        }
    }
    assert forall|v: VirtPageNum| (#[trigger] node1(m1, root, v)).is_some() implies inner_entry(
        m1,
        root,
        v,
        0,
    ).flag_bits() == 0x01 by {
        assert(node1(m1, root, v) == node1(m0, root, v));
        assert(m1.word(root, v.index(0)) == m0.word(root, v.index(0)));
        assert(inner_entry(m0, root, v, 0).flag_bits() == 0x01);
    }
    assert forall|v: VirtPageNum| (#[trigger] node2(m1, root, v)).is_some() implies inner_entry(
        m1,
        root,
        v,
        1,
    ).flag_bits() == 0x01 by {
        assert(node1(m1, root, v) == node1(m0, root, v));
        let n = node1(m0, root, v).unwrap();
        assert(owned.contains(n));
        if v.index(0) == i0 && v.index(1) == i1 {
            assert(node1(m0, root, v) == node1(m0, root, vpn));
        } else {
            assert(node2(m1, root, v) == node2(m0, root, v));
            if n == parent {
                assert(node1(m0, root, v) == node1(m0, root, vpn));
                assert(v.index(0) == i0);
            }
            assert(m1.word(n, v.index(1)) == m0.word(n, v.index(1)));
            assert(inner_entry(m0, root, v, 1).flag_bits() == 0x01);
        }
    }
}

/// Facts about the word that names a page table to the hardware.
#[verifier::spinoff_prover]
pub proof fn lemma_token_bits(root: u64)
    by (bit_vector)
    ensures
        root < 0x1000_0000_0000u64 ==> ((8u64 << 60u64) | root) & 0xfff_ffff_ffffu64 == root,
        root < 0x1000_0000_0000u64 ==> ((8u64 << 60u64) | root) == 0x8000_0000_0000_0000u64 + root,
        ((8u64 << 60u64) | root) >> 60u64 == 8u64 | (root >> 60u64),
{
}

/// A three-level page table: its root and the frames that hold its nodes.
pub struct PageTable {
    root_ppn: PhysPageNum,
    frames: Vec<FrameTracker>,
}

impl PageTable {
    /// The frame of the root node.
    pub closed spec fn root(&self) -> PhysPageNum {
        self.root_ppn
    }

    /// The frames that hold the nodes of the table, in the order in which
    /// they were taken; the root comes first.
    pub closed spec fn frame_list(&self) -> Seq<PhysPageNum> {
        self.frames@.map_values(|f: FrameTracker| f.ppn)
    }

    /// The frames that hold the nodes of the table.
    pub open spec fn frame_set(&self) -> Set<PhysPageNum> {
        self.frame_list().to_set()
    }

    /// Whether frame `p` holds a node of the table.
    pub open spec fn owns(&self, p: PhysPageNum) -> bool {
        self.frame_list().contains(p)
    }

    /// The table is a tree of nodes in `mem`, all of them in frames that the
    /// table owns, none of them twice, reached through entries that carry
    /// the valid flag alone.
    pub open spec fn wf(&self, mem: &PhysMemory) -> bool {
        &&& self.frame_list().len() >= 1
        &&& self.frame_list()[0] == self.root()
        &&& self.frame_list().no_duplicates()
        &&& owned_in(mem, self.root(), self.frame_list())
        &&& tree(mem, self.root(), self.frame_list())
    }

    /// Every frame of the table is allocated in `allocator`.
    pub open spec fn allocated_in(&self, allocator: &StackFrameAllocator) -> bool {
        forall|p: PhysPageNum| #[trigger] self.owns(p) ==> allocator.is_allocated(p)
    }

    /// The table, the memory and the allocator fit together.
    pub open spec fn inv(&self, mem: &PhysMemory, allocator: &StackFrameAllocator) -> bool {
        &&& mem.wf()
        &&& allocator.wf()
        &&& allocator.fits(mem)
        &&& self.wf(mem)
        &&& self.allocated_in(allocator)
    }

    /// The valid entry that maps `vpn`, if there is one.
    pub open spec fn maps(&self, mem: &PhysMemory, vpn: VirtPageNum) -> Option<PageTableEntry> {
        translation(mem, self.root(), vpn)
    }

    /// The number of nodes that the table lacks on the walk for `vpn`.
    pub open spec fn missing_nodes(&self, mem: &PhysMemory, vpn: VirtPageNum) -> int {
        if node1(mem, self.root(), vpn).is_none() {
            2
        } else if node2(mem, self.root(), vpn).is_none() {
            1
        } else {
            0
        }
    }

    /// How the table `self`, with the allocator `a1` and the memory `m1`,
    /// came out of `before`, `a0` and `m0` by a step that may have added
    /// nodes: the root is the same, every new node lies in a frame that was
    /// free, the table owns every frame that the step allocated, and no
    /// frame of anyone else was touched.
    pub open spec fn extends(
        &self,
        before: &PageTable,
        a0: &StackFrameAllocator,
        m0: &PhysMemory,
        a1: &StackFrameAllocator,
        m1: &PhysMemory,
    ) -> bool {
        &&& self.root() == before.root()
        &&& forall|p: PhysPageNum| #[trigger] before.owns(p) ==> self.owns(p)
        &&& forall|p: PhysPageNum| #[trigger] self.owns(p) && !before.owns(p) ==> !a0.is_allocated(p)
        &&& forall|p: PhysPageNum| #[trigger]
            a1.is_allocated(p) <==> a0.is_allocated(p) || self.owns(p)
        &&& others_untouched(a0@, m0, a1@, m1, before.frame_set())
    }

    /// The word that names this table to the hardware: the mode for three
    /// levels in the top four bits, the root's page number below.
    pub open spec fn spec_token(&self) -> u64 {
        (8u64 << 60) | self.root().0
    }

    /// A new table with a zeroed root and no mapping; `None` if no frame is
    /// left for the root.
    #[verifier::spinoff_prover]
    pub fn new(allocator: &mut StackFrameAllocator, mem: &mut PhysMemory) -> (r: Option<PageTable>)
        requires
            old(mem).wf(),
            old(allocator).wf(),
            old(allocator).fits(old(mem)),
        ensures
            r.is_some() <==> old(allocator)@.free_count() > 0,
            final(mem).wf(),
            final(allocator).wf(),
            final(allocator).fits(final(mem)),
            others_untouched(
                old(allocator)@,
                old(mem),
                final(allocator)@,
                final(mem),
                Set::empty(),
            ),
            match r {
                Some(table) => {
                    &&& table.inv(final(mem), final(allocator))
                    &&& table.frame_list() == seq![table.root()]
                    &&& old(allocator)@.next_frame() == Some(table.root().0)
                    &&& final(allocator)@ == old(allocator)@.after_alloc()
                    &&& final(allocator)@.free_count() == old(allocator)@.free_count() - 1
                    &&& !old(allocator).is_allocated(table.root())
                    &&& forall|p: PhysPageNum| #[trigger]
                        final(allocator).is_allocated(p) <==> old(allocator).is_allocated(p) || p
                            == table.root()
                    &&& forall|v: VirtPageNum| #[trigger] table.maps(final(mem), v).is_none()
                    &&& forall|v: VirtPageNum| #[trigger]
                        node1(final(mem), table.root(), v).is_none()
                },
                None => final(allocator)@ == old(allocator)@,
            },
    {
        let ghost m0 = *mem;
        let ghost a0 = *allocator;
        proof {
            reveal(tree);
        }
        match frame_alloc(allocator, mem) {
            None => {
                assert forall|p: PhysPageNum| a0@.is_allocated(p.0) implies #[trigger] frame_kept(
                    allocator@,
                    &m0,
                    mem,
                    p,
                ) by {
                    assert(m0.contains(p));
                    assert(mem.same_page(&m0, p));
                }
                None
            },
            Some(frame) => {
                let root = frame.ppn;
                let table = PageTable { root_ppn: root, frames: vec![frame] };
                proof {
                    assert(table.frame_list() =~= seq![root]);
                    assert(table.frame_list()[0] == root);
                    assert forall|v: VirtPageNum| #[trigger]
                        node1(mem, root, v).is_none() by {
                        assert(mem.word(root, v.index(0)) == 0);
                    }
                    assert forall|p: PhysPageNum| a0@.is_allocated(p.0) implies #[trigger] frame_kept(
                        allocator@,
                        &m0,
                        mem,
                        p,
                    ) by {
                        assert(allocator.is_allocated(p));
                        assert(m0.contains(p));
                        assert(mem.same_page(&m0, p));
                    }
                    assert forall|p: PhysPageNum| #[trigger] table.owns(p) implies allocator.is_allocated(
                        p,
                    ) by {
                        assert(p == root);
                    }
                }
                Some(table)
            },
        }
    }

    /// A view of the table that the word `satp` names, to look mappings up
    /// in. It owns no frame.
    #[verifier::spinoff_prover]
    pub fn from_token(satp: u64) -> (table: PageTable)
        ensures
            table.root() == PhysPageNum(satp % PPN_LIMIT),
            table.frame_list() == Seq::<PhysPageNum>::empty(),
    {
        proof {
            lemma_address_bits(satp);
            lemma_address_bits(satp & crate::address::PPN_MASK);
        }
        let table = PageTable {
            root_ppn: PhysPageNum::from(satp & crate::address::PPN_MASK),
            frames: Vec::new(),
        };
        assert(table.frame_list() =~= Seq::<PhysPageNum>::empty());
        table
    }

    /// Finds the slot of the last entry on the walk for `vpn`: the frame of
    /// the third-level node and the index in it. `None` if the walk ends at
    /// an invalid entry before.
    #[verifier::spinoff_prover]
    fn find_pte(&self, vpn: VirtPageNum, mem: &PhysMemory) -> (r: Option<(PhysPageNum, usize)>)
        requires
            mem.wf(),
            walkable(mem, self.root()),
        ensures
            match r {
                Some((n, i)) => node2(mem, self.root(), vpn) == Some(n) && i == vpn.index(2)
                    && mem.contains(n),
                None => node2(mem, self.root(), vpn).is_none(),
            },
    {
        let idxs = vpn.indexes();
        let mut ppn = self.root_ppn;
        let mut result: Option<(PhysPageNum, usize)> = None;
        let mut i: usize = 0;
        while i < 3
            invariant_except_break
                result.is_none(),
                i == 0 ==> ppn == self.root(),
                i == 1 ==> node1(mem, self.root(), vpn) == Some(ppn),
                i == 2 ==> node2(mem, self.root(), vpn) == Some(ppn),
            invariant
                i < 3,
                mem.wf(),
                walkable(mem, self.root()),
                mem.contains(ppn),
                idxs[0] == vpn.index(0),
                idxs[1] == vpn.index(1),
                idxs[2] == vpn.index(2),
                idxs[0] < 512 && idxs[1] < 512 && idxs[2] < 512,
            ensures
                match result {
                    Some((n, k)) => node2(mem, self.root(), vpn) == Some(n) && k == vpn.index(2)
                        && mem.contains(n),
                    None => false,
                },
            decreases 3 - i,
        {
            let idx: usize = idxs[i];
            if i == 2 {
                result = Some((ppn, idx));
                break ;
            }
            let pte = PageTableEntry { bits: mem.read_word(ppn, idx) };
            if !pte.is_valid() {
                return None;
            }
            ppn = pte.ppn();
            i += 1;
        }
        result
    }

    /// Finds the slot of the last entry on the walk for `vpn`, as
    /// [`Self::find_pte`] does, and creates the nodes that the walk lacks,
    /// each in a fresh zeroed frame. `None` if the frames ran out; the nodes
    /// created until then stay in the table.
    #[verifier::spinoff_prover]
    fn find_pte_create(
        &mut self,
        vpn: VirtPageNum,
        allocator: &mut StackFrameAllocator,
        mem: &mut PhysMemory,
    ) -> (r: Option<(PhysPageNum, usize)>)
        requires
            old(self).inv(old(mem), old(allocator)),
        ensures
            final(self).inv(final(mem), final(allocator)),
            final(self).extends(old(self), old(allocator), old(mem), final(allocator), final(mem)),
            forall|v: VirtPageNum| #[trigger]
                final(self).maps(final(mem), v) == old(self).maps(old(mem), v),
            r.is_some() <==> old(allocator)@.free_count() >= old(self).missing_nodes(old(mem), vpn),
            match r {
                Some((n, i)) => node2(final(mem), final(self).root(), vpn) == Some(n) && i
                    == vpn.index(2) && final(mem).contains(n) && final(allocator)@.free_count()
                    == old(allocator)@.free_count() - old(self).missing_nodes(old(mem), vpn),
                None => final(allocator)@.free_count() == 0,
            },
            old(self).missing_nodes(old(mem), vpn) == 0 ==> *final(mem) == *old(mem) && *final(allocator) == *old(allocator) && *final(self) == *old(self),
    {
        let ghost m0 = *mem;
        let ghost a0 = *allocator;
        let ghost owned0 = self.frame_list();
        proof {
            reveal(tree);
        }
        let idxs = vpn.indexes();
        let root = self.root_ppn;
        proof {
            lemma_wf_walkable(self, mem);
            assert forall|p: PhysPageNum|
                a0@.is_allocated(p.0) && !self.frame_set().contains(p) implies #[trigger] frame_kept(
                a0@,
                &m0,
                &m0,
                p,
            ) by {}
        }
        let e0 = PageTableEntry { bits: mem.read_word(root, idxs[0]) };
        let n1: PhysPageNum;
        if !e0.is_valid() {
            match frame_alloc(allocator, mem) {
                None => {
                    proof {
                        lemma_step_nothing(old(self), &a0, &m0, allocator, mem);
                    }
                    return None;
                },
                Some(frame) => {
                    let fresh = frame.ppn;
                    let ghost m_zeroed = *mem;
                    proof {
                        assert(!owned0.contains(fresh)) by {
                            if owned0.contains(fresh) {
                                assert(old(self).owns(fresh));
                            }
                        }
                        assert forall|p: PhysPageNum| #[trigger] owned0.contains(p) implies mem.same_page(
                            &m0,
                            p,
                        ) by {
                            assert(self.owns(p));
                        }
                        lemma_tree_same_pages(&m0, mem, root, owned0);
                        assert(node1(mem, root, vpn) == node1(&m0, root, vpn));
                    }
                    let entry = PageTableEntry::new(fresh, PTEFlags::V());
                    mem.write_word(root, idxs[0], entry.bits);
                    self.frames.push(frame);
                    proof {
                        assert(fresh.is_valid());
                        assert(self.frame_list() =~= owned0.push(fresh));
                        lemma_install_level1(&m_zeroed, mem, root, owned0, vpn, fresh);
                        assert forall|v: VirtPageNum| #[trigger]
                            self.maps(mem, v) == old(self).maps(&m0, v) by {
                            assert(translation(mem, root, v) == translation(&m_zeroed, root, v));
                            assert(translation(&m_zeroed, root, v) == translation(&m0, root, v));
                        }
                        lemma_step_grows(
                            old(self),
                            self,
                            &a0,
                            &m0,
                            allocator,
                            &m_zeroed,
                            mem,
                            fresh,
                            root,
                            idxs[0] as int,
                        );
                    }
                    n1 = fresh;
                },
            }
        } else {
            proof {
                lemma_step_nothing(old(self), &a0, &m0, &a0, &m0);
            }
            n1 = e0.ppn();
        }
        assert(self.inv(mem, allocator));
        assert(self.extends(old(self), &a0, &m0, allocator, mem));
        let ghost m1 = *mem;
        let ghost a1 = *allocator;
        let ghost owned1 = self.frame_list();
        let ghost table1 = *self;
        proof {
            lemma_wf_walkable(self, mem);
            assert(node1(mem, root, vpn) == Some(n1));
            assert(owned1.contains(n1));
        }
        let e1 = PageTableEntry { bits: mem.read_word(n1, idxs[1]) };
        let n2: PhysPageNum;
        if !e1.is_valid() {
            match frame_alloc(allocator, mem) {
                None => {
                    proof {
                        lemma_step_nothing(&table1, &a1, &m1, allocator, mem);
                        lemma_extends_trans(
                            old(self),
                            &table1,
                            self,
                            &a0,
                            &m0,
                            &a1,
                            &m1,
                            allocator,
                            mem,
                        );
                        assert forall|v: VirtPageNum| #[trigger]
                            self.maps(mem, v) == old(self).maps(&m0, v) by {
                            assert(table1.maps(mem, v) == table1.maps(&m1, v));
                            assert(table1.maps(&m1, v) == old(self).maps(&m0, v));
                        }
                    }
                    return None;
                },
                Some(frame) => {
                    let fresh = frame.ppn;
                    let ghost m_zeroed = *mem;
                    proof {
                        assert(!owned1.contains(fresh)) by {
                            if owned1.contains(fresh) {
                                assert(self.owns(fresh));
                            }
                        }
                        assert forall|p: PhysPageNum| #[trigger] owned1.contains(p) implies mem.same_page(
                            &m1,
                            p,
                        ) by {
                            assert(self.owns(p));
                        }
                        lemma_tree_same_pages(&m1, mem, root, owned1);
                        assert(node1(mem, root, vpn) == node1(&m1, root, vpn));
                        assert(node2(mem, root, vpn) == node2(&m1, root, vpn));
                    }
                    let entry = PageTableEntry::new(fresh, PTEFlags::V());
                    mem.write_word(n1, idxs[1], entry.bits);
                    self.frames.push(frame);
                    proof {
                        assert(fresh.is_valid());
                        assert(self.frame_list() =~= owned1.push(fresh));
                        lemma_install_level2(&m_zeroed, mem, root, owned1, vpn, n1, fresh);
                        assert forall|v: VirtPageNum| #[trigger]
                            self.maps(mem, v) == old(self).maps(&m0, v) by {
                            assert(translation(mem, root, v) == translation(&m_zeroed, root, v));
                            assert(translation(&m_zeroed, root, v) == translation(&m1, root, v));
                            assert(table1.maps(&m1, v) == old(self).maps(&m0, v));
                        }
                        lemma_step_grows(
                            &table1,
                            self,
                            &a1,
                            &m1,
                            allocator,
                            &m_zeroed,
                            mem,
                            fresh,
                            n1,
                            idxs[1] as int,
                        );
                        lemma_extends_trans(old(self), &table1, self, &a0, &m0, &a1, &m1, allocator, mem);
                    }
                    n2 = fresh;
                },
            }
        } else {
            n2 = e1.ppn();
        }
        proof {
            assert(node2(mem, root, vpn) == Some(n2));
            assert(self.frame_list().contains(n2));
        }
        Some((n2, idxs[2]))
    }

    /// Maps `vpn`, which must not be mapped, to `ppn` with the flags `flags`
    /// and the valid flag.
    ///
    /// The mapping fails if the table needs a new node and no frame is
    /// left. No other page changes what it maps to.
    #[verifier::spinoff_prover]
    pub fn map(
        &mut self,
        vpn: VirtPageNum,
        ppn: PhysPageNum,
        flags: PTEFlags,
        allocator: &mut StackFrameAllocator,
        mem: &mut PhysMemory,
    ) -> (r: Result<(), MapError>)
        requires
            old(self).inv(old(mem), old(allocator)),
            old(self).maps(old(mem), vpn).is_none(),
        ensures
            final(self).inv(final(mem), final(allocator)),
            final(self).extends(old(self), old(allocator), old(mem), final(allocator), final(mem)),
            forall|v: VirtPageNum|
                !same_indexes(v, vpn) ==> #[trigger] final(self).maps(final(mem), v) == old(self).maps(old(mem), v),
            match r {
                Ok(()) => {
                    &&& old(allocator)@.free_count() >= old(self).missing_nodes(old(mem), vpn)
                    &&& final(allocator)@.free_count() == old(allocator)@.free_count() - old(self).missing_nodes(old(mem), vpn)
                    &&& final(self).maps(final(mem), vpn) == Some(
                        PageTableEntry::spec_new(ppn, mapped_flags(flags)),
                    )
                },
                Err(MapError::AlreadyMapped) => false,
                Err(MapError::OutOfFrames) => {
                    &&& old(allocator)@.free_count() < old(self).missing_nodes(old(mem), vpn)
                    &&& final(allocator)@.free_count() == 0
                    &&& final(self).maps(final(mem), vpn).is_none()
                },
                Err(MapError::NotMapped) => false,
            },
    {
        let ghost m0 = *mem;
        let ghost a0 = *allocator;
        proof {
            reveal(tree);
        }
        match self.find_pte_create(vpn, allocator, mem) {
            None => {
                proof {
                    assert(self.maps(mem, vpn) == old(self).maps(&m0, vpn));
                }
                Err(MapError::OutOfFrames)
            },
            Some((node, idx)) => {
                let ghost m1 = *mem;
                let ghost a1 = *allocator;
                let ghost table1 = *self;
                proof {
                    assert(self.maps(mem, vpn) == old(self).maps(&m0, vpn));
                }
                let entry = PageTableEntry::new(ppn, flags.union(PTEFlags::V()));
                mem.write_word(node, idx, entry.bits);
                proof {
                    lemma_low_flag(flags.bits());
                    lemma_entry_valid_bit(ppn.0, flags.bits() | 1u8);
                    assert(entry == PageTableEntry::spec_new(ppn, mapped_flags(flags)));
                    lemma_leaf_write(&m1, mem, self.root(), self.frame_list(), vpn, node, entry.bits);
                    assert(leaf_entry(mem, self.root(), vpn) == Some(entry));
                    assert forall|v: VirtPageNum| !same_indexes(v, vpn) implies #[trigger] self.maps(
                        mem,
                        v,
                    ) == old(self).maps(&m0, v) by {
                        assert(leaf_entry(mem, self.root(), v) == leaf_entry(&m1, self.root(), v));
                        assert(table1.maps(&m1, v) == old(self).maps(&m0, v));
                    }
                    lemma_step_writes(&table1, &a1, &m1, mem, node, idx as int);
                    lemma_extends_trans(old(self), &table1, self, &a0, &m0, &a1, &m1, allocator, mem);
                }
                Ok(())
            },
        }
    }

    /// Removes the mapping of `vpn`, which must be mapped: the entry that
    /// mapped it becomes the entry of all zeros. No other page changes what
    /// it maps to, and the table keeps its nodes.
    #[verifier::spinoff_prover]
    pub fn unmap(&mut self, vpn: VirtPageNum, mem: &mut PhysMemory)
        requires
            old(mem).wf(),
            old(self).wf(old(mem)),
            old(self).maps(old(mem), vpn).is_some(),
        ensures
            final(mem).wf(),
            final(mem).same_range(old(mem)),
            final(self).wf(final(mem)),
            *final(self) == *old(self),
            forall|p: PhysPageNum|
                old(mem).contains(p) && !old(self).owns(p) ==> #[trigger] final(mem).same_page(
                    old(mem),
                    p,
                ),
            forall|v: VirtPageNum|
                !same_indexes(v, vpn) ==> #[trigger] final(self).maps(final(mem), v) == old(self).maps(old(mem), v),
            final(self).maps(final(mem), vpn).is_none(),
            leaf_entry(final(mem), final(self).root(), vpn) == Some(PageTableEntry { bits: 0 }),
    {
        let ghost m0 = *mem;
        proof {
            reveal(tree);
            lemma_wf_walkable(self, mem);
        }
        match self.find_pte(vpn, mem) {
            None => {},
            Some((node, idx)) => {
                mem.write_word(node, idx, PageTableEntry::empty().bits);
                proof {
                    lemma_leaf_write(&m0, mem, self.root(), self.frame_list(), vpn, node, 0);
                    assert(leaf_entry(mem, self.root(), vpn) == Some(PageTableEntry { bits: 0 }));
                    assert forall|v: VirtPageNum| !same_indexes(v, vpn) implies #[trigger] self.maps(
                        mem,
                        v,
                    ) == old(self).maps(&m0, v) by {
                        assert(leaf_entry(mem, self.root(), v) == leaf_entry(&m0, self.root(), v));
                    }
                    assert(self.frame_list().contains(node));
                    assert forall|p: PhysPageNum|
                        m0.contains(p) && !self.owns(p) implies #[trigger] mem.same_page(&m0, p) by {
                        assert(p != node);
                    }
                }
            },
        }
    }

    /// Gives every frame of the table back to the allocator. The table is no
    /// more after that.
    #[verifier::spinoff_prover]
    pub fn release(self, allocator: &mut StackFrameAllocator)
        requires
            old(allocator).wf(),
            self.allocated_in(old(allocator)),
            self.frame_list().no_duplicates(),
        ensures
            final(allocator).wf(),
            final(allocator)@.start == old(allocator)@.start,
            final(allocator)@.end == old(allocator)@.end,
            forall|q: PhysPageNum| #[trigger]
                final(allocator).is_allocated(q) <==> old(allocator).is_allocated(q) && !self.owns(q),
            final(allocator)@.free_count() == old(allocator)@.free_count() + self.frame_list().len(),
    {
        let ghost list = self.frame_list();
        let ghost a0 = *allocator;
        proof {
            assert forall|i: int| 0 <= i < list.len() implies a0.is_allocated(
                #[trigger] list[i],
            ) by {
                assert(self.owns(list[i]));
            }
        }
        let mut frames = self.frames;
        while frames.len() > 0
            invariant
                allocator.wf(),
                allocator@.start == a0@.start,
                allocator@.end == a0@.end,
                list.no_duplicates(),
                frames@.len() <= list.len(),
                forall|i: int| 0 <= i < frames@.len() ==> (#[trigger] frames@[i]).ppn == list[i],
                forall|i: int| 0 <= i < list.len() ==> a0.is_allocated(#[trigger] list[i]),
                forall|q: PhysPageNum| #[trigger]
                    allocator.is_allocated(q) <==> a0.is_allocated(q) && !(exists|i: int|
                        frames@.len() <= i < list.len() && list[i] == q),
                allocator@.free_count() == a0@.free_count() + list.len() - frames@.len(),
            decreases frames@.len(),
        {
            let ghost n = frames@.len() - 1;
            let ghost a1 = *allocator;
            let frame = frames.pop().unwrap();
            proof {
                assert(frame.ppn == list[n]);
                assert(a0.is_allocated(list[n]));
                assert(a1.is_allocated(frame.ppn)) by {
                    if exists|i: int| n + 1 <= i < list.len() && list[i] == frame.ppn {
                        let i = choose|i: int| n + 1 <= i < list.len() && list[i] == frame.ppn;
                        assert(list[i] == list[n]);
                    }
                }
            }
            crate::frame_allocator::frame_dealloc(allocator, frame);
            proof {
                assert forall|q: PhysPageNum| #[trigger]
                    allocator.is_allocated(q) <==> a0.is_allocated(q) && !(exists|i: int|
                        n <= i < list.len() && list[i] == q) by {
                    assert(allocator.is_allocated(q) <==> q != list[n] && a1.is_allocated(q));
                    if exists|i: int| n <= i < list.len() && list[i] == q {
                        let i = choose|i: int| n <= i < list.len() && list[i] == q;
                        if i > n {
                            assert(n + 1 <= i < list.len() && list[i] == q);
                        }
                    }
                    if exists|i: int| n + 1 <= i < list.len() && list[i] == q {
                        let i = choose|i: int| n + 1 <= i < list.len() && list[i] == q;
                        assert(n <= i < list.len() && list[i] == q);
                    }
                }
            }
        }
        proof {
            assert forall|q: PhysPageNum| #[trigger]
                allocator.is_allocated(q) <==> a0.is_allocated(q) && !self.owns(q) by {
                if self.owns(q) {
                    let i = choose|i: int| 0 <= i < list.len() && list[i] == q;
                    assert(0 <= i < list.len() && list[i] == q);
                }
                if exists|i: int| 0 <= i < list.len() && list[i] == q {
                    let i = choose|i: int| 0 <= i < list.len() && list[i] == q;
                    assert(list.contains(q));
                }
            }
        }
    }

    /// Looks up the valid entry that maps `vpn`.
    #[verifier::spinoff_prover]
    pub fn translate(&self, vpn: VirtPageNum, mem: &PhysMemory) -> (r: Option<PageTableEntry>)
        requires
            mem.wf(),
            walkable(mem, self.root()),
        ensures
            r == self.maps(mem, vpn),
    {
        match self.find_pte(vpn, mem) {
            Some((node, idx)) => {
                let pte = PageTableEntry { bits: mem.read_word(node, idx) };
                if pte.is_valid() {
                    Some(pte)
                } else {
                    None
                }
            },
            None => None,
        }
    }

    /// The word that names this table to the hardware.
    #[verifier::when_used_as_spec(spec_token)]
    #[verifier::spinoff_prover]
    pub fn token(&self) -> (t: u64)
        ensures
            t == self.spec_token(),
            self.root().is_valid() ==> t == 0x8000_0000_0000_0000 + self.root().0 && t % PPN_LIMIT
                == self.root().0,
    {
        proof {
            lemma_token_bits(self.root_ppn.0);
            lemma_address_bits((8u64 << 60) | self.root_ppn.0);
        }
        (8u64 << 60) | self.root_ppn.0
    }
}

/// In a well-formed table an entry that leads to a node carries the valid
/// flag and no other, so that no walk takes it for a leaf.
#[verifier::spinoff_prover]
pub proof fn lemma_inner_entries_are_plain(table: &PageTable, mem: &PhysMemory, vpn: VirtPageNum)
    requires
        table.wf(mem),
    ensures
        node1(mem, table.root(), vpn).is_some() ==> inner_entry(
            mem,
            table.root(),
            vpn,
            0,
        ).flag_bits() == 0x01,
        node2(mem, table.root(), vpn).is_some() ==> inner_entry(
            mem,
            table.root(),
            vpn,
            1,
        ).flag_bits() == 0x01,
{
    reveal(tree);
}

/// A well-formed table can be walked.
#[verifier::spinoff_prover]
pub proof fn lemma_wf_walkable(table: &PageTable, mem: &PhysMemory)
    requires
        table.wf(mem),
    ensures
        walkable(mem, table.root()),
{
    reveal(tree);
    let owned = table.frame_list();
    assert forall|v: VirtPageNum| #[trigger]
        node1(mem, table.root(), v).is_some() implies mem.contains(
        node1(mem, table.root(), v).unwrap(),
    ) by {
        assert(owned.contains(node1(mem, table.root(), v).unwrap()));
    }
    assert forall|v: VirtPageNum| #[trigger]
        node2(mem, table.root(), v).is_some() implies mem.contains(
        node2(mem, table.root(), v).unwrap(),
    ) by {
        assert(owned.contains(node2(mem, table.root(), v).unwrap()));
    }
}

/// The flags that a mapping made with `flags` carries: `flags` and the valid
/// flag.
pub open spec fn mapped_flags(flags: PTEFlags) -> PTEFlags {
    PTEFlags { bits: flags.bits() | 1u8 }
}

/// One step of growth: a table that takes a freshly allocated frame, after
/// which one word of a frame that it owned before is written, extends the
/// table that it was.
#[verifier::spinoff_prover]
proof fn lemma_step_grows(
    before: &PageTable,
    after: &PageTable,
    a0: &StackFrameAllocator,
    m0: &PhysMemory,
    a1: &StackFrameAllocator,
    m_zeroed: &PhysMemory,
    m1: &PhysMemory,
    fresh: PhysPageNum,
    n: PhysPageNum,
    i: int,
)
    requires
        before.inv(m0, a0),
        after.root() == before.root(),
        after.frame_list() == before.frame_list().push(fresh),
        !a0.is_allocated(fresh),
        a1.wf(),
        a1@.start == a0@.start,
        a1@.end == a0@.end,
        forall|q: PhysPageNum| #[trigger] a1.is_allocated(q) <==> q == fresh || a0.is_allocated(q),
        m_zeroed.same_range(m0),
        m1.same_range(m0),
        forall|p: PhysPageNum| m0.contains(p) && p != fresh ==> #[trigger] m_zeroed.same_page(m0, p),
        before.owns(n),
        one_word_changed(m_zeroed, m1, n, i),
    ensures
        after.extends(before, a0, m0, a1, m1),
        after.allocated_in(a1),
        after.frame_list().no_duplicates(),
        after.frame_list()[0] == after.root(),
{
    let owned = before.frame_list();
    let owned1 = after.frame_list();
    assert(!before.owns(fresh));
    assert(owned1[owned.len() as int] == fresh);
    assert forall|p: PhysPageNum| #[trigger] before.owns(p) implies after.owns(p) by {
        let i = choose|i: int| 0 <= i < owned.len() && owned[i] == p;
        assert(owned1[i] == p);
    }
    assert forall|p: PhysPageNum| #[trigger] after.owns(p) implies before.owns(p) || p == fresh by {
        let i = choose|i: int| 0 <= i < owned1.len() && owned1[i] == p;
        if i < owned.len() {
            assert(owned[i] == p);
        }
    }
    assert forall|p: PhysPageNum| #[trigger] a1.is_allocated(p) <==> a0.is_allocated(p) || after.owns(
        p,
    ) by {
        if after.owns(p) && p != fresh {
            assert(before.owns(p));
        }
    }
    assert forall|p: PhysPageNum|
        a0@.is_allocated(p.0) && !before.frame_set().contains(p) implies #[trigger] frame_kept(
        a1@,
        m0,
        m1,
        p,
    ) by {
        assert(a1.is_allocated(p));
        assert(a0.is_allocated(p));
        assert(m0.contains(p));
        assert(p != fresh && p != n);
        assert(m_zeroed.same_page(m0, p));
        assert forall|j: int| 0 <= j < 512 implies #[trigger] m1.word(p, j) == m0.word(p, j) by {
            assert(m1.word(p, j) == m_zeroed.word(p, j));
        }
    }
    assert forall|i: int, j: int|
        0 <= i < owned1.len() && 0 <= j < owned1.len() && i != j implies owned1[i] != owned1[j] by {
        if i < owned.len() {
            assert(owned.contains(owned[i]));
        }
        if j < owned.len() {
            assert(owned.contains(owned[j]));
        }
    }
}

/// A step that changes neither the allocator nor the content of memory
/// leaves the table as it is.
#[verifier::spinoff_prover]
pub proof fn lemma_step_nothing(
    table: &PageTable,
    a0: &StackFrameAllocator,
    m0: &PhysMemory,
    a1: &StackFrameAllocator,
    m1: &PhysMemory,
)
    requires
        table.inv(m0, a0),
        a1@ == a0@,
        m1.wf(),
        m1.same_range(m0),
        forall|p: PhysPageNum| m0.contains(p) ==> #[trigger] m1.same_page(m0, p),
    ensures
        table.inv(m1, a1),
        table.extends(table, a0, m0, a1, m1),
        forall|v: VirtPageNum| #[trigger] table.maps(m1, v) == table.maps(m0, v),
        forall|v: VirtPageNum| #[trigger]
            node1(m1, table.root(), v) == node1(m0, table.root(), v),
        forall|v: VirtPageNum| #[trigger]
            node2(m1, table.root(), v) == node2(m0, table.root(), v),
{
    assert forall|p: PhysPageNum| #[trigger] table.frame_list().contains(p) implies m1.same_page(
        m0,
        p,
    ) by {
        assert(m0.contains(p));
    }
    lemma_tree_same_pages(m0, m1, table.root(), table.frame_list());
    assert forall|p: PhysPageNum| #[trigger] table.owns(p) implies a1.is_allocated(p) by {
        assert(a0.is_allocated(p));
    }
    assert forall|p: PhysPageNum|
        a0@.is_allocated(p.0) && !table.frame_set().contains(p) implies #[trigger] frame_kept(
        a1@,
        m0,
        m1,
        p,
    ) by {
        assert(m0.contains(p));
    }
    assert forall|p: PhysPageNum| #[trigger] a1.is_allocated(p) <==> a0.is_allocated(p) || table.owns(
        p,
    ) by {
        if table.owns(p) {
            assert(a0.is_allocated(p));
        }
    }
}

/// A step that writes one word of a frame that the table owns extends the
/// table.
#[verifier::spinoff_prover]
proof fn lemma_step_writes(
    table: &PageTable,
    a: &StackFrameAllocator,
    m0: &PhysMemory,
    m1: &PhysMemory,
    node: PhysPageNum,
    i: int,
)
    requires
        table.inv(m0, a),
        table.owns(node),
        one_word_changed(m0, m1, node, i),
    ensures
        table.extends(table, a, m0, a, m1),
{
    assert forall|p: PhysPageNum|
        a@.is_allocated(p.0) && !table.frame_set().contains(p) implies #[trigger] frame_kept(
        a@,
        m0,
        m1,
        p,
    ) by {
        assert(a.is_allocated(p));
        assert(m0.contains(p));
        assert(p != node);
    }
}

/// Two steps of growth in a row are one.
#[verifier::spinoff_prover]
proof fn lemma_extends_trans(
    t0: &PageTable,
    t1: &PageTable,
    t2: &PageTable,
    a0: &StackFrameAllocator,
    m0: &PhysMemory,
    a1: &StackFrameAllocator,
    m1: &PhysMemory,
    a2: &StackFrameAllocator,
    m2: &PhysMemory,
)
    requires
        t1.extends(t0, a0, m0, a1, m1),
        t2.extends(t1, a1, m1, a2, m2),
    ensures
        t2.extends(t0, a0, m0, a2, m2),
{
    assert forall|p: PhysPageNum| #[trigger] t0.owns(p) implies t2.owns(p) by {
        assert(t1.owns(p));
    }
    assert forall|p: PhysPageNum| #[trigger] t2.owns(p) && !t0.owns(p) implies !a0.is_allocated(
        p,
    ) by {
        if t1.owns(p) {
        } else {
            assert(!a1.is_allocated(p));
        }
    }
    assert forall|p: PhysPageNum| #[trigger] a2.is_allocated(p) <==> a0.is_allocated(p) || t2.owns(
        p,
    ) by {
        assert(a1.is_allocated(p) <==> a0.is_allocated(p) || t1.owns(p));
        if t1.owns(p) {
            assert(t2.owns(p));
        }
    }
    assert forall|p: PhysPageNum|
        t1.frame_set().contains(p) implies t0.frame_set().contains(p) || !a0@.is_allocated(p.0) by {
        if !t0.owns(p) {
            assert(t1.owns(p));
            assert(!a0.is_allocated(p));
        }
    }
    crate::frame_allocator::lemma_others_untouched_trans(
        a0@,
        m0,
        a1@,
        m1,
        a2@,
        m2,
        t0.frame_set(),
        t1.frame_set(),
    );
}

/// A table that extends another one, all of whose frames were allocated,
/// made a step in which it went from the frames of the one to its own.
#[verifier::spinoff_prover]
pub proof fn lemma_extends_step(
    before: &PageTable,
    after: &PageTable,
    a0: &StackFrameAllocator,
    m0: &PhysMemory,
    a1: &StackFrameAllocator,
    m1: &PhysMemory,
)
    requires
        before.allocated_in(a0),
        after.extends(before, a0, m0, a1, m1),
    ensures
        crate::frame_allocator::step_ok(a0@, m0, a1@, m1, before.frame_set(), after.frame_set()),
{
    assert forall|p: PhysPageNum| #[trigger]
        after.frame_set().contains(p) && !before.frame_set().contains(p) implies !a0@.is_allocated(
        p.0,
    ) by {
        assert(after.owns(p) && !before.owns(p));
        assert(!a0.is_allocated(p));
    }
    assert forall|p: PhysPageNum| #[trigger]
        a1@.is_allocated(p.0) <==> (a0@.is_allocated(p.0) && !before.frame_set().contains(p))
            || after.frame_set().contains(p) by {
        assert(a1.is_allocated(p) <==> a0.is_allocated(p) || after.owns(p));
        if before.owns(p) {
            assert(after.owns(p));
        }
    }
}

/// A step by someone who owns none of the table's frames leaves the table as
/// it is.
#[verifier::spinoff_prover]
pub proof fn lemma_table_survives(
    table: &PageTable,
    a0: &StackFrameAllocator,
    m0: &PhysMemory,
    a1: &StackFrameAllocator,
    m1: &PhysMemory,
    mine: Set<PhysPageNum>,
)
    requires
        table.inv(m0, a0),
        others_untouched(a0@, m0, a1@, m1, mine),
        forall|p: PhysPageNum| #[trigger] table.owns(p) ==> !mine.contains(p),
        a1.wf(),
        m1.wf(),
    ensures
        table.inv(m1, a1),
        forall|v: VirtPageNum| #[trigger] table.maps(m1, v) == table.maps(m0, v),
        forall|v: VirtPageNum| #[trigger]
            node1(m1, table.root(), v) == node1(m0, table.root(), v),
        forall|v: VirtPageNum| #[trigger]
            node2(m1, table.root(), v) == node2(m0, table.root(), v),
        forall|v: VirtPageNum| table.missing_nodes(m1, v) == table.missing_nodes(m0, v),
{
    assert forall|p: PhysPageNum| #[trigger] table.frame_list().contains(p) implies m1.same_page(
        m0,
        p,
    ) && a1.is_allocated(p) by {
        assert(table.owns(p));
        assert(a0.is_allocated(p));
        assert(frame_kept(a1@, m0, m1, p));
    }
    lemma_tree_same_pages(m0, m1, table.root(), table.frame_list());
    assert forall|p: PhysPageNum| #[trigger] table.owns(p) implies a1.is_allocated(p) by {
        assert(table.frame_list().contains(p));
    }
}

/// Every page that a well-formed memory holds has a valid page number.
#[verifier::spinoff_prover]
pub proof fn lemma_contained_is_valid(mem: &PhysMemory, p: PhysPageNum)
    requires
        mem.wf(),
        mem.contains(p),
    ensures
        p.is_valid(),
{
    mem.lemma_range_is_valid();
}

/// The unions of flags that the kernel uses, as bytes.
#[verifier::spinoff_prover]
pub proof fn lemma_flag_unions()
    by (bit_vector)
    ensures
        0x02u8 | 0x08u8 == 0x0au8,
        0x02u8 | 0x04u8 == 0x06u8,
        0x06u8 | 0x10u8 == 0x16u8,
        0x0au8 | 0x01u8 == 0x0bu8,
        0x06u8 | 0x01u8 == 0x07u8,
        0x02u8 | 0x01u8 == 0x03u8,
        0x16u8 | 0x01u8 == 0x17u8,
{
}

impl PhysPageNum {
    /// The 512 entries of the table node in this page, copied out of `mem`.
    #[verifier::spinoff_prover]
    pub fn get_pte_array(&self, mem: &PhysMemory) -> (entries: Vec<PageTableEntry>)
        requires
            mem.wf(),
            mem.contains(*self),
        ensures
            entries@.len() == 512,
            forall|i: int| 0 <= i < 512 ==> entries@[i] == entry_at(mem, *self, i),
    {
        let mut entries: Vec<PageTableEntry> = Vec::new();
        let mut i: usize = 0;
        while i < 512
            invariant
                i <= 512,
                mem.wf(),
                mem.contains(*self),
                entries@.len() == i,
                forall|j: int| 0 <= j < i ==> entries@[j] == entry_at(mem, *self, j),
            decreases 512 - i,
        {
            entries.push(PageTableEntry { bits: mem.read_word(*self, i) });
            i += 1;
        }
        entries
    }
}

/// A run of bytes within one frame: the bytes of frame `ppn` from offset
/// `start` up to, but without, offset `end`.
#[derive(Copy, Clone, Debug, PartialEq, Eq, Structural)]
pub struct ByteChunk {
    /// The frame that holds the bytes.
    pub ppn: PhysPageNum,
    /// The offset of the first byte.
    pub start: usize,
    /// The offset just past the last byte.
    pub end: usize,
}

/// The chunk of the buffer that ends at address `end` which starts at
/// address `start`, in the page of `start` that is mapped by `entry`: from
/// the offset of `start` up to the end of the page or of the buffer,
/// whichever comes first.
pub open spec fn chunk_at(entry: PageTableEntry, start: int, end: int) -> ByteChunk {
    ByteChunk {
        ppn: entry.spec_ppn(),
        start: (start % 4096) as usize,
        end: if (start / 4096 + 1) * 4096 <= end {
            4096usize
        } else {
            (end % 4096) as usize
        },
    }
}

/// The address at which the chunk after the one that starts at `start`
/// begins: the next page boundary, or the end of the buffer.
pub open spec fn next_chunk_start(start: int, end: int) -> int {
    if (start / 4096 + 1) * 4096 <= end {
        (start / 4096 + 1) * 4096
    } else {
        end
    }
}

/// The chunks, page by page, of the buffer from address `start` up to
/// address `end` in the address space of the table at `root`; `None` if a
/// page of the buffer is not mapped.
pub open spec fn chunks_of(mem: &PhysMemory, root: PhysPageNum, start: int, end: int) -> Option<
    Seq<ByteChunk>,
>
    decreases end - start,
{
    if start >= end || start < 0 {
        Some(Seq::empty())
    } else {
        match translation(mem, root, VirtPageNum((start / 4096) as u64)) {
            None => None,
            Some(entry) => match chunks_of(mem, root, next_chunk_start(start, end), end) {
                None => None,
                Some(rest) => Some(seq![chunk_at(entry, start, end)] + rest),
            },
        }
    }
}

/// The chunks `acc` are those of the buffer from `ptr` up to `start`: what
/// the chunks from `start` on are decides, with `acc` before them, what the
/// chunks of the whole buffer are.
#[verifier::opaque]
pub open spec fn chunks_so_far(
    mem: &PhysMemory,
    root: PhysPageNum,
    ptr: int,
    start: int,
    end: int,
    acc: Seq<ByteChunk>,
) -> bool {
    chunks_of(mem, root, ptr, end) == match chunks_of(mem, root, start, end) {
        Some(rest) => Some(acc + rest),
        None => None,
    }
}

/// At the start of the buffer, no chunk has been taken.
#[verifier::spinoff_prover]
proof fn lemma_chunks_start(mem: &PhysMemory, root: PhysPageNum, ptr: int, end: int)
    ensures
        chunks_so_far(mem, root, ptr, ptr, end, Seq::empty()),
{
    reveal(chunks_so_far);
    if let Some(rest) = chunks_of(mem, root, ptr, end) {
        assert(Seq::<ByteChunk>::empty() + rest =~= rest);
    }
}

/// Taking the chunk at `start`, in a page that is mapped, moves on to the
/// start of the next chunk.
#[verifier::spinoff_prover]
proof fn lemma_chunks_step(
    mem: &PhysMemory,
    root: PhysPageNum,
    ptr: int,
    start: int,
    end: int,
    acc: Seq<ByteChunk>,
    entry: PageTableEntry,
)
    requires
        0 <= start < end,
        chunks_so_far(mem, root, ptr, start, end, acc),
        translation(mem, root, VirtPageNum((start / 4096) as u64)) == Some(entry),
    ensures
        chunks_so_far(
            mem,
            root,
            ptr,
            next_chunk_start(start, end),
            end,
            acc.push(chunk_at(entry, start, end)),
        ),
        start < next_chunk_start(start, end) <= end,
{
    reveal(chunks_so_far);
    let next = next_chunk_start(start, end);
    if let Some(rest) = chunks_of(mem, root, next, end) {
        assert(acc + (seq![chunk_at(entry, start, end)] + rest) =~= acc.push(
            chunk_at(entry, start, end),
        ) + rest);
    }
}

/// A page of the buffer that is not mapped leaves the buffer without chunks.
#[verifier::spinoff_prover]
proof fn lemma_chunks_none(
    mem: &PhysMemory,
    root: PhysPageNum,
    ptr: int,
    start: int,
    end: int,
    acc: Seq<ByteChunk>,
)
    requires
        0 <= start < end,
        chunks_so_far(mem, root, ptr, start, end, acc),
        translation(mem, root, VirtPageNum((start / 4096) as u64)).is_none(),
    ensures
        chunks_of(mem, root, ptr, end).is_none(),
{
    reveal(chunks_so_far);
}

/// At the end of the buffer, the chunks taken are those of the buffer.
#[verifier::spinoff_prover]
proof fn lemma_chunks_done(
    mem: &PhysMemory,
    root: PhysPageNum,
    ptr: int,
    start: int,
    end: int,
    acc: Seq<ByteChunk>,
)
    requires
        start >= end,
        chunks_so_far(mem, root, ptr, start, end, acc),
    ensures
        chunks_of(mem, root, ptr, end) == Some(acc),
{
    reveal(chunks_so_far);
    assert(acc + Seq::<ByteChunk>::empty() =~= acc);
}

/// Where the chunk that starts at address `start` lies, in a buffer that
/// ends at address `end`: the page of `start`, the offsets within the page
/// at which the chunk starts and ends, and the address at which the next
/// chunk starts.
#[verifier::spinoff_prover]
pub fn chunk_bounds(start: u64, end: u64) -> (r: (VirtPageNum, usize, usize, u64))
    requires
        start < end <= crate::address::VA_LIMIT,
    ensures
        r.0 == VirtPageNum(start / 4096),
        r.1 == chunk_at(PageTableEntry { bits: 0 }, start as int, end as int).start,
        r.2 == chunk_at(PageTableEntry { bits: 0 }, start as int, end as int).end,
        r.3 == next_chunk_start(start as int, end as int),
        start < r.3 <= end,
        r.1 < r.2 <= 4096,
{
    let start_va = crate::address::VirtAddr::from(start);
    let mut vpn = start_va.floor();
    let page = vpn;
    crate::address::StepByOne::step(&mut vpn);
    proof {
        lemma_address_bits(vpn.0);
    }
    let boundary = crate::address::VirtAddr::from(vpn);
    let end_va = if boundary.0 <= end {
        boundary
    } else {
        crate::address::VirtAddr(end)
    };
    let first = start_va.page_offset() as usize;
    if end_va.page_offset() == 0 {
        (page, first, 4096, end_va.0)
    } else {
        (page, first, end_va.page_offset() as usize, end_va.0)
    }
}

/// Splits the buffer of `len` bytes at the virtual address `ptr`, in the
/// address space that the word `token` names, into the runs of bytes that
/// lie in one frame each, in the order of their addresses. `None` if a page
/// of the buffer is not mapped.
#[verifier::spinoff_prover]
pub fn translated_byte_buffer(token: u64, ptr: u64, len: u64, mem: &PhysMemory) -> (r: Option<
    Vec<ByteChunk>,
>)
    requires
        mem.wf(),
        walkable(mem, PhysPageNum(token % PPN_LIMIT)),
        ptr + len <= crate::address::VA_LIMIT,
    ensures
        match r {
            Some(chunks) => chunks_of(mem, PhysPageNum(token % PPN_LIMIT), ptr as int, ptr + len)
                == Some(chunks@) && forall|i: int|
                0 <= i < chunks@.len() ==> (#[trigger] chunks@[i]).start < chunks@[i].end <= 4096,
            None => chunks_of(mem, PhysPageNum(token % PPN_LIMIT), ptr as int, ptr + len).is_none(),
        },
{
    let page_table = PageTable::from_token(token);
    let ghost root = PhysPageNum(token % PPN_LIMIT);
    let mut start: u64 = ptr;
    let end: u64 = start + len;
    let mut v: Vec<ByteChunk> = Vec::new();
    proof {
        lemma_chunks_start(mem, root, ptr as int, end as int);
    }
    while start < end
        invariant
            mem.wf(),
            root == PhysPageNum(token % PPN_LIMIT),
            page_table.root() == root,
            walkable(mem, root),
            end == ptr + len,
            end <= crate::address::VA_LIMIT,
            chunks_so_far(mem, root, ptr as int, start as int, end as int, v@),
            forall|i: int| 0 <= i < v@.len() ==> (#[trigger] v@[i]).start < v@[i].end <= 4096,
        decreases end - start,
    {
        let (vpn, first, last, next) = chunk_bounds(start, end);
        let pte = match page_table.translate(vpn, mem) {
            Some(pte) => pte,
            None => {
                proof {
                    lemma_chunks_none(mem, root, ptr as int, start as int, end as int, v@);
                }
                return None;
            },
        };
        proof {
            lemma_chunks_step(mem, root, ptr as int, start as int, end as int, v@, pte);
        }
        v.push(ByteChunk { ppn: pte.ppn(), start: first, end: last });
        start = next;
    }
    proof {
        lemma_chunks_done(mem, root, ptr as int, start as int, end as int, v@);
    }
    Some(v)
}

/// Reads the bytes of the chunks `chunks` out of `mem`, one chunk after the
/// other.
#[verifier::spinoff_prover]
pub fn read_chunks(chunks: &Vec<ByteChunk>, mem: &PhysMemory) -> (bytes: Vec<u8>)
    requires
        mem.wf(),
        forall|i: int|
            0 <= i < chunks@.len() ==> mem.contains((#[trigger] chunks@[i]).ppn) && chunks@[i].start
                <= chunks@[i].end <= 4096,
    ensures
        bytes@ == bytes_of(mem, chunks@),
{
    let mut bytes: Vec<u8> = Vec::new();
    let mut i: usize = 0;
    while i < chunks.len()
        invariant
            i <= chunks@.len(),
            mem.wf(),
            forall|i: int|
                0 <= i < chunks@.len() ==> mem.contains((#[trigger] chunks@[i]).ppn)
                    && chunks@[i].start <= chunks@[i].end <= 4096,
            bytes@ == bytes_of(mem, chunks@.take(i as int)),
        decreases chunks@.len() - i,
    {
        let chunk = chunks[i];
        let ghost done = bytes@;
        let mut off: usize = chunk.start;
        while off < chunk.end
            invariant
                mem.wf(),
                mem.contains(chunk.ppn),
                chunk.start <= off <= chunk.end <= 4096,
                bytes@ == done + Seq::new(
                    (off - chunk.start) as nat,
                    |k: int| mem.byte(chunk.ppn, chunk.start + k),
                ),
            decreases chunk.end - off,
        {
            let ghost so_far = bytes@;
            bytes.push(mem.read_byte(chunk.ppn, off));
            proof {
                assert(bytes@ =~= done + Seq::new(
                    (off + 1 - chunk.start) as nat,
                    |k: int| mem.byte(chunk.ppn, chunk.start + k),
                ));
            }
            off += 1;
        }
        proof {
            assert(chunks@.take(i + 1).drop_last() =~= chunks@.take(i as int));
            assert(chunks@.take(i + 1).last() == chunk);
        }
        i += 1;
    }
    proof {
        assert(chunks@.take(chunks@.len() as int) =~= chunks@);
    }
    bytes
}

/// The bytes of one chunk.
pub open spec fn chunk_bytes(mem: &PhysMemory, chunk: ByteChunk) -> Seq<u8> {
    Seq::new((chunk.end - chunk.start) as nat, |k: int| mem.byte(chunk.ppn, chunk.start + k))
}

/// The bytes of the chunks `chunks`, one chunk after the other.
pub open spec fn bytes_of(mem: &PhysMemory, chunks: Seq<ByteChunk>) -> Seq<u8>
    decreases chunks.len(),
{
    if chunks.len() == 0 {
        Seq::empty()
    } else {
        bytes_of(mem, chunks.drop_last()) + chunk_bytes(mem, chunks.last())
    }
}

} // verus!
