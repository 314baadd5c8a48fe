//! Logical segments and address spaces.
//!
//! A [`MapArea`] is a run of virtual pages mapped under one policy and one
//! permission. A [`MemorySet`] is a page table together with the areas that
//! are mapped in it.

use crate::address::{PhysPageNum, StepByOne, VPNRange, VirtAddr, VirtPageNum};
use crate::frame_allocator::{
    frame_alloc, frame_dealloc, frame_kept, lemma_step_ok_trans, lemma_step_ok_widen,
    others_untouched, step_ok, FrameTracker, StackFrameAllocator,
};
use crate::memory::PhysMemory;
use crate::page_table::{
    lemma_extends_step, lemma_step_nothing, lemma_tree_same_pages, lemma_wf_walkable, mapped_flags,
    same_indexes, translation, walkable, MapError, PTEFlags, PageTable, PageTableEntry,
};
use crate::image::{load_image, image_of, ImageError, ProgramImage, SegmentHeader};
use std::collections::BTreeMap;
use vstd::prelude::*;

verus! {

/// How the pages of an area are mapped to frames.
#[derive(Copy, Clone, Debug, PartialEq, Eq, Structural)]
pub enum MapType {
    /// Each page is mapped to the frame with the same number.
    Identical,
    /// Each page is mapped to a frame of its own, which the area owns.
    Framed,
}

/// The permissions of an area: a subset of the flags of a page-table entry.
#[derive(Copy, Clone, Debug, PartialEq, Eq, Structural)]
pub struct MapPermission {
    /// The permissions as a byte, at the positions of the entry's flags.
    pub bits: u8,
}

impl MapPermission {
    /// The pages can be read.
    #[allow(non_snake_case)]
    #[verifier::spinoff_prover]
    pub fn R() -> (f: MapPermission)
        ensures
            f.bits == 0x02u8,
    {
        MapPermission { bits: 0x02 }
    }

    /// The pages can be written.
    #[allow(non_snake_case)]
    #[verifier::spinoff_prover]
    pub fn W() -> (f: MapPermission)
        ensures
            f.bits == 0x04u8,
    {
        MapPermission { bits: 0x04 }
    }

    /// Instructions can be fetched from the pages.
    #[allow(non_snake_case)]
    #[verifier::spinoff_prover]
    pub fn X() -> (f: MapPermission)
        ensures
            f.bits == 0x08u8,
    {
        MapPermission { bits: 0x08 }
    }

    /// The pages can be accessed in user mode.
    #[allow(non_snake_case)]
    #[verifier::spinoff_prover]
    pub fn U() -> (f: MapPermission)
        ensures
            f.bits == 0x10u8,
    {
        MapPermission { bits: 0x10 }
    }

    /// No permission.
    #[verifier::spinoff_prover]
    pub fn empty() -> (f: MapPermission)
        ensures
            f.bits == 0u8,
    {
        MapPermission { bits: 0 }
    }

    /// The permissions as a byte.
    #[verifier::spinoff_prover]
    pub fn bits(&self) -> (b: u8)
        ensures
            b == self.bits,
    {
        self.bits
    }

    /// The permissions that `bits` encodes; `None` if a bit is set that is
    /// no permission.
    #[verifier::spinoff_prover]
    pub fn from_bits(bits: u8) -> (r: Option<MapPermission>)
        ensures
            r == if bits & 0xe1u8 == 0 {
                Some(MapPermission { bits })
            } else {
                None
            },
    {
        if bits & 0xe1u8 == 0 {
            Some(MapPermission { bits })
        } else {
            None
        }
    }

    /// The permissions of `self` and those of `other`.
    #[verifier::spinoff_prover]
    pub fn union(self, other: MapPermission) -> (r: MapPermission)
        ensures
            r.bits == self.bits | other.bits,
    {
        MapPermission { bits: self.bits | other.bits }
    }

    /// Whether every permission of `other` is in `self`.
    #[verifier::spinoff_prover]
    pub fn contains(&self, other: MapPermission) -> (r: bool)
        ensures
            r == (self.bits & other.bits == other.bits),
    {
        self.bits & other.bits == other.bits
    }
}

/// The pages, the policy and the permissions of an area, without its frames.
pub struct AreaShape {
    /// The number of the first page.
    pub start: int,
    /// The number of the page just past the last one.
    pub end: int,
    /// How the pages are mapped.
    pub kind: MapType,
    /// The permissions of the pages.
    pub perm: MapPermission,
}

impl AreaShape {
    /// Whether page number `v` lies in the area.
    pub open spec fn covers(self, v: u64) -> bool {
        self.start <= v < self.end
    }

    /// The number of pages.
    pub open spec fn count(self) -> int {
        self.end - self.start
    }

    /// The most frames that mapping the area takes; see [`frames_bound`].
    pub open spec fn frames(self) -> int {
        frames_bound(self.kind, self.start, self.count())
    }
}

/// The most frames that mapping `k` pages from page `start` on takes: one
/// for each page that gets a frame of its own, and one for each node of the
/// table below the root through which the walks for these pages pass, a
/// third-level node for every 512 pages and a second-level node for every
/// 262144.
pub open spec fn frames_bound(kind: MapType, start: int, k: int) -> int {
    if k <= 0 {
        0
    } else {
        (if kind == MapType::Framed {
            k
        } else {
            0int
        }) + ((start + k - 1) / 512 - start / 512 + 1) + ((start + k - 1) / 0x4_0000 - start
            / 0x4_0000 + 1)
    }
}

/// Mapping page `vpn` of an area that begins at page `start`, after every
/// page between them was mapped, takes no more frames than the bound for
/// the pages up to `vpn` has over the bound for the pages before it.
#[verifier::spinoff_prover]
pub proof fn lemma_page_needs(
    area: &MapArea,
    table: &PageTable,
    mem: &PhysMemory,
    start: int,
    vpn: VirtPageNum,
    end: int,
)
    requires
        0 <= start <= vpn.0 < end,
        start < vpn.0 ==> table.maps(mem, VirtPageNum((vpn.0 - 1) as u64)).is_some(),
    ensures
        area.frames_needed(table, mem, vpn) <= frames_bound(area.kind(), start, vpn.0 - start + 1)
            - frames_bound(area.kind(), start, vpn.0 - start),
        0 <= frames_bound(area.kind(), start, vpn.0 - start),
        frames_bound(area.kind(), start, vpn.0 - start + 1) <= frames_bound(
            area.kind(),
            start,
            end - start,
        ),
{
    let v = vpn.0 as int;
    if start < v {
        let before = VirtPageNum((vpn.0 - 1) as u64);
        let root = table.root();
        assert(crate::page_table::node2(mem, root, before).is_some());
        assert(crate::page_table::node1(mem, root, before).is_some());
        assert((v / 512) / 512 == v / 0x4_0000);
        assert(((v - 1) / 512) / 512 == (v - 1) / 0x4_0000);
        if v / 0x4_0000 == (v - 1) / 0x4_0000 {
            assert(vpn.index(0) == before.index(0));
            assert(crate::page_table::node1(mem, root, vpn) == crate::page_table::node1(
                mem,
                root,
                before,
            ));
            if v / 512 == (v - 1) / 512 {
                assert(vpn.index(1) == before.index(1));
                assert(crate::page_table::node2(mem, root, vpn) == crate::page_table::node2(
                    mem,
                    root,
                    before,
                ));
            }
        }
    }
}

/// A run of virtual pages that are mapped under one policy and with one
/// permission.
pub struct MapArea {
    vpn_range: VPNRange,
    data_frames: BTreeMap<u64, FrameTracker>,
    map_type: MapType,
    map_perm: MapPermission,
}

impl MapArea {
    /// The pages of the area.
    pub closed spec fn range(&self) -> VPNRange {
        self.vpn_range
    }

    /// The number of the first page of the area.
    pub open spec fn start(&self) -> int {
        self.range().start().0 as int
    }

    /// The number of the page just past the last one of the area.
    pub open spec fn end(&self) -> int {
        self.range().end().0 as int
    }

    /// Whether page number `v` lies in the area.
    pub open spec fn covers(&self, v: u64) -> bool {
        self.start() <= v < self.end()
    }

    /// The pages, the policy and the permissions of the area.
    pub open spec fn shape(&self) -> AreaShape {
        AreaShape { start: self.start(), end: self.end(), kind: self.kind(), perm: self.perm() }
    }

    /// How the pages of the area are mapped.
    pub closed spec fn kind(&self) -> MapType {
        self.map_type
    }

    /// The permissions of the area.
    pub closed spec fn perm(&self) -> MapPermission {
        self.map_perm
    }

    /// The frame that the area owns for each page that it has one for.
    pub closed spec fn framed(&self) -> Map<u64, PhysPageNum> {
        self.data_frames@.map_values(|f: FrameTracker| f.ppn)
    }

    /// Whether the area owns frame `p`.
    pub open spec fn owns(&self, p: PhysPageNum) -> bool {
        exists|v: u64| #[trigger] self.framed().contains_key(v) && self.framed()[v] == p
    }

    /// The frames that the area owns.
    pub open spec fn frame_set(&self) -> Set<PhysPageNum> {
        Set::new(|p: PhysPageNum| self.owns(p))
    }

    /// The flags of the entries that map the pages of the area: its
    /// permissions and the valid flag.
    pub open spec fn entry_flags(&self) -> PTEFlags {
        PTEFlags { bits: self.perm().bits | 1u8 }
    }

    /// The frame to which the area maps page `v`.
    pub open spec fn target(&self, v: u64) -> PhysPageNum {
        match self.kind() {
            MapType::Identical => PhysPageNum(v),
            MapType::Framed => self.framed()[v],
        }
    }

    /// The entry with which the area maps page `v`.
    pub open spec fn entry(&self, v: u64) -> PageTableEntry {
        PageTableEntry::spec_new(self.target(v), self.entry_flags())
    }

    /// The frames of the area lie in `mem`, are allocated, and are all
    /// different; they stand for pages with valid numbers; only a framed
    /// area has any.
    pub open spec fn frames_ok(&self, mem: &PhysMemory, allocator: &StackFrameAllocator) -> bool {
        &&& forall|v: u64| #[trigger]
            self.framed().contains_key(v) ==> mem.contains(self.framed()[v])
                && allocator.is_allocated(self.framed()[v]) && VirtPageNum(v).is_valid()
        &&& forall|v: u64, w: u64|
            #![trigger self.framed().contains_key(v), self.framed().contains_key(w)]
            self.framed().contains_key(v) && self.framed().contains_key(w) && v != w
                ==> self.framed()[v] != self.framed()[w]
        &&& self.kind() == MapType::Identical ==> self.framed().dom() == Set::<u64>::empty()
    }

    /// Every page that the area has a frame for is mapped to that frame in
    /// the table at `root`.
    pub open spec fn tracked_by(&self, root: PhysPageNum, mem: &PhysMemory) -> bool {
        forall|v: u64| #[trigger]
            self.framed().contains_key(v) ==> translation(mem, root, VirtPageNum(v)) == Some(
                self.entry(v),
            )
    }

    /// The area, its page table, the memory and the allocator fit together:
    /// the table is well formed, the area's frames are in order and mapped,
    /// and no frame belongs to both the table and the area.
    pub open spec fn inv(
        &self,
        table: &PageTable,
        mem: &PhysMemory,
        allocator: &StackFrameAllocator,
    ) -> bool {
        &&& table.inv(mem, allocator)
        &&& self.frames_ok(mem, allocator)
        &&& self.tracked_by(table.root(), mem)
        &&& forall|p: PhysPageNum| #[trigger] self.owns(p) ==> !table.owns(p)
    }

    /// Every page of the area is mapped in the table at `root`, with the
    /// area's entry for it; a framed area has a frame for each of its pages
    /// and for no other.
    pub open spec fn mapped_in(&self, root: PhysPageNum, mem: &PhysMemory) -> bool {
        &&& forall|v: u64| #[trigger]
            self.covers(v) ==> translation(mem, root, VirtPageNum(v)) == Some(self.entry(v))
        &&& self.kind() == MapType::Framed ==> forall|v: u64| #[trigger]
            self.framed().contains_key(v) <==> self.covers(v)
    }

    /// The number of frames that mapping page `vpn` takes: one for each node
    /// that the table lacks, and one for the page if the area is framed.
    pub open spec fn frames_needed(
        &self,
        table: &PageTable,
        mem: &PhysMemory,
        vpn: VirtPageNum,
    ) -> int {
        table.missing_nodes(mem, vpn) + if self.kind() == MapType::Framed {
            1int
        } else {
            0int
        }
    }

    /// Maps page `vpn` as the area's policy says: to the frame with the same
    /// number, or to a fresh zeroed frame that the area then owns.
    ///
    /// The call is rejected if `vpn` is mapped already, and fails if the
    /// frames run out; in both cases the area owns what it owned before and
    /// no page changes what it maps to.
    #[verifier::spinoff_prover]
    pub fn map_one(
        &mut self,
        page_table: &mut PageTable,
        vpn: VirtPageNum,
        allocator: &mut StackFrameAllocator,
        mem: &mut PhysMemory,
    ) -> (r: Result<(), MapError>)
        requires
            old(self).inv(old(page_table), old(mem), old(allocator)),
            vpn.is_valid(),
        ensures
            map_one_post(
                old(self),
                old(page_table),
                old(allocator),
                old(mem),
                final(self),
                final(page_table),
                final(allocator),
                final(mem),
                vpn,
                r,
            ),
    {
        let ghost a0 = *allocator;
        let ghost m0 = *mem;
        let ghost pt0 = *page_table;
        let ghost area0 = *self;
        let pte_flags = match PTEFlags::from_bits(self.map_perm.bits) {
            Some(f) => f,
            None => PTEFlags::empty(),
        };
        assert(mapped_flags(pte_flags) == self.entry_flags());
        proof {
            crate::page_table::lemma_wf_walkable(page_table, mem);
        }
        if page_table.translate(vpn, mem).is_some() {
            proof {
                lemma_owned_allocated(&area0, &pt0, &m0, &a0);
                crate::frame_allocator::lemma_step_ok_refl(
                    a0@,
                    &m0,
                    pt0.frame_set() + area0.frame_set(),
                );
            }
            return Err(MapError::AlreadyMapped);
        }
        match self.map_type {
            MapType::Identical => {
                let ppn = PhysPageNum(vpn.0);
                let r = page_table.map(vpn, ppn, pte_flags, allocator, mem);
                proof {
                    lemma_extends_step(&pt0, page_table, &a0, &m0, allocator, mem);
                    lemma_area_survives(&area0, &pt0, page_table, &a0, &m0, allocator, mem, vpn);
                    lemma_step_ok_widen(
                        a0@,
                        &m0,
                        allocator@,
                        mem,
                        pt0.frame_set(),
                        page_table.frame_set(),
                        area0.frame_set(),
                    );
                }
                r
            },
            MapType::Framed => {
                match frame_alloc(allocator, mem) {
                    None => {
                        proof {
                            lemma_step_nothing(&pt0, &a0, &m0, allocator, mem);
                            lemma_extends_step(&pt0, page_table, &a0, &m0, allocator, mem);
                            lemma_area_survives(
                                &area0,
                                &pt0,
                                page_table,
                                &a0,
                                &m0,
                                allocator,
                                mem,
                                vpn,
                            );
                            lemma_step_ok_widen(
                                a0@,
                                &m0,
                                allocator@,
                                mem,
                                pt0.frame_set(),
                                page_table.frame_set(),
                                area0.frame_set(),
                            );
                        }
                        Err(MapError::OutOfFrames)
                    },
                    Some(frame) => {
                        let ppn = frame.ppn;
                        let ghost a1 = *allocator;
                        let ghost m1 = *mem;
                        proof {
                            assert(others_untouched(a0@, &m0, a1@, &m1, Set::empty())) by {
                                assert forall|p: PhysPageNum|
                                    a0@.is_allocated(p.0) implies #[trigger] frame_kept(
                                    a1@,
                                    &m0,
                                    &m1,
                                    p,
                                ) by {
                                    assert(a0.is_allocated(p));
                                    assert(a1.is_allocated(p));
                                    assert(m0.contains(p));
                                }
                            }
                            crate::page_table::lemma_table_survives(
                                &pt0,
                                &a0,
                                &m0,
                                &a1,
                                &m1,
                                Set::empty(),
                            );
                            lemma_area_kept(&area0, &pt0, &a0, &m0, &a1, &m1, Set::empty());
                        }
                        match page_table.map(vpn, ppn, pte_flags, allocator, mem) {
                            Ok(()) => {
                                let ghost a2 = *allocator;
                                let ghost m2 = *mem;
                                let previous = self.data_frames.insert(vpn.0, frame);
                                proof {
                                    assert(!area0.framed().contains_key(vpn.0)) by {
                                        if area0.framed().contains_key(vpn.0) {
                                            assert(translation(&m1, pt0.root(), vpn).is_some());
                                        }
                                    }
                                    assert(self.framed() =~= area0.framed().insert(vpn.0, ppn));
                                    lemma_area_survives(
                                        &area0,
                                        &pt0,
                                        page_table,
                                        &a1,
                                        &m1,
                                        &a2,
                                        &m2,
                                        vpn,
                                    );
                                    lemma_framed_step(
                                        &area0,
                                        self,
                                        &pt0,
                                        page_table,
                                        &a0,
                                        &m0,
                                        &a1,
                                        &m1,
                                        &a2,
                                        &m2,
                                        vpn,
                                        ppn,
                                    );
                                }
                                Ok(())
                            },
                            Err(e) => {
                                let ghost a2 = *allocator;
                                let ghost m2 = *mem;
                                proof {
                                    lemma_area_survives(
                                        &area0,
                                        &pt0,
                                        page_table,
                                        &a1,
                                        &m1,
                                        &a2,
                                        &m2,
                                        vpn,
                                    );
                                    assert(!page_table.owns(ppn)) by {
                                        if page_table.owns(ppn) {
                                            if pt0.owns(ppn) {
                                                assert(a0.is_allocated(ppn));
                                            } else {
                                                assert(!a1.is_allocated(ppn));
                                            }
                                        }
                                    }
                                    assert(a2.is_allocated(ppn));
                                }
                                frame_dealloc(allocator, frame);
                                proof {
                                    lemma_failed_step(
                                        &area0,
                                        &pt0,
                                        page_table,
                                        &a0,
                                        &m0,
                                        &a1,
                                        &m1,
                                        &a2,
                                        &m2,
                                        allocator,
                                        ppn,
                                    );
                                }
                                Err(e)
                            },
                        }
                    },
                }
            },
        }
    }

    /// Removes the mapping of page `vpn` and, if the area owns a frame for the
    /// page, gives the frame back.
    ///
    /// The call is rejected, and nothing changes, if `vpn` is not mapped.
    #[verifier::spinoff_prover]
    pub fn unmap_one(
        &mut self,
        page_table: &mut PageTable,
        vpn: VirtPageNum,
        allocator: &mut StackFrameAllocator,
        mem: &mut PhysMemory,
    ) -> (r: Result<(), MapError>)
        requires
            old(self).inv(old(page_table), old(mem), old(allocator)),
            vpn.is_valid(),
        ensures
            unmap_one_post(
                old(self),
                old(page_table),
                old(allocator),
                old(mem),
                final(self),
                final(page_table),
                final(allocator),
                final(mem),
                vpn,
                r,
            ),
    {
        let ghost a0 = *allocator;
        let ghost m0 = *mem;
        let ghost area0 = *self;
        proof {
            lemma_owned_allocated(&area0, page_table, &m0, &a0);
            crate::frame_allocator::lemma_step_ok_refl(
                a0@,
                &m0,
                page_table.frame_set() + area0.frame_set(),
            );
        }
        proof {
            crate::page_table::lemma_wf_walkable(page_table, mem);
        }
        if page_table.translate(vpn, mem).is_none() {
            return Err(MapError::NotMapped);
        }
        page_table.unmap(vpn, mem);
        let ghost m1 = *mem;
        proof {
            assert forall|v: u64| #[trigger] area0.framed().contains_key(v) implies mem.same_page(
                &m0,
                area0.framed()[v],
            ) && mem.contains(area0.framed()[v]) by {
                assert(area0.owns(area0.framed()[v]));
            }
            assert forall|v: u64|
                #[trigger] area0.framed().contains_key(v) && v != vpn.0 implies translation(
                mem,
                page_table.root(),
                VirtPageNum(v),
            ) == Some(area0.entry(v)) by {
                if same_indexes(VirtPageNum(v), vpn) {
                    crate::address::lemma_indexes_injective(VirtPageNum(v), vpn);
                }
                assert(page_table.maps(mem, VirtPageNum(v)) == page_table.maps(
                    &m0,
                    VirtPageNum(v),
                ));
            }
            assert forall|p: PhysPageNum|
                a0@.is_allocated(p.0) && !(page_table.frame_set() + area0.frame_set()).contains(
                    p,
                ) implies #[trigger] frame_kept(a0@, &m0, mem, p) by {
                assert(m0.contains(p));
                assert(!page_table.owns(p));
            }
        }
        let removed = self.data_frames.remove(&vpn.0);
        proof {
            assert(self.framed() =~= area0.framed().remove(vpn.0));
        }
        match removed {
            Some(frame) => {
                let ghost gone = frame.ppn;
                proof {
                    assert(area0.framed().contains_key(vpn.0) && area0.framed()[vpn.0] == gone);
                    assert(area0.owns(gone));
                }
                frame_dealloc(allocator, frame);
                proof {
                    lemma_unframed_step(&area0, self, page_table, &a0, &m0, allocator, mem, vpn, gone);
                }
            },
            None => {
                proof {
                    assert(self.framed() =~= area0.framed());
                    assert forall|p: PhysPageNum| #[trigger] self.owns(p) == area0.owns(p) by {
                        if self.owns(p) {
                            let v = choose|v: u64| #[trigger]
                                self.framed().contains_key(v) && self.framed()[v] == p;
                            assert(area0.framed().contains_key(v));
                        }
                        if area0.owns(p) {
                            let v = choose|v: u64| #[trigger]
                                area0.framed().contains_key(v) && area0.framed()[v] == p;
                            assert(self.framed().contains_key(v));
                        }
                    }
                    assert(self.frame_set() =~= area0.frame_set());
                    assert forall|p: PhysPageNum| #[trigger]
                        a0@.is_allocated(p.0) <==> (a0@.is_allocated(p.0) && !(
                        page_table.frame_set() + area0.frame_set()).contains(p)) || (
                        page_table.frame_set() + self.frame_set()).contains(p) by {
                        if page_table.owns(p) {
                            assert(a0.is_allocated(p));
                        }
                        if area0.owns(p) {
                            let v = choose|v: u64| #[trigger]
                                area0.framed().contains_key(v) && area0.framed()[v] == p;
                            assert(a0.is_allocated(p));
                        }
                    }
                }
            },
        }
        Ok(())
    }

    /// Maps every page of the area, the first one first, as
    /// [`Self::map_one`] does. If a page cannot be mapped, the pages mapped
    /// before it are unmapped again, so that the area and every translation
    /// are as they were.
    #[verifier::spinoff_prover]
    pub fn map(
        &mut self,
        page_table: &mut PageTable,
        allocator: &mut StackFrameAllocator,
        mem: &mut PhysMemory,
    ) -> (r: Result<(), MapError>)
        requires
            old(self).inv(old(page_table), old(mem), old(allocator)),
            old(self).range().wf(),
            old(self).end() <= crate::address::VPN_LIMIT,
        ensures
            map_post(
                old(self),
                old(page_table),
                old(allocator),
                old(mem),
                final(self),
                final(page_table),
                final(allocator),
                final(mem),
                r,
            ),
    {
        let ghost a0 = *allocator;
        let ghost m0 = *mem;
        let ghost pt0 = *page_table;
        let ghost area0 = *self;
        let end = self.vpn_range.get_end();
        let mut vpn = self.vpn_range.get_start();
        proof {
            lemma_map_start(&area0, &pt0, &a0, &m0);
        }
        while !vpn.meets(&end)
            invariant
                area0 == *old(self),
                pt0 == *old(page_table),
                a0 == *old(allocator),
                m0 == *old(mem),
                self.inv(page_table, mem, allocator),
                area0.range().wf(),
                area0.end() <= crate::address::VPN_LIMIT,
                end == area0.range().end(),
                area0.start() <= vpn.0 <= area0.end(),
                map_reached(
                    &area0,
                    &pt0,
                    &a0,
                    &m0,
                    self,
                    page_table,
                    allocator,
                    mem,
                    vpn.0 as int,
                ),
                allocator@.free_count() >= a0@.free_count() - frames_bound(
                    area0.kind(),
                    area0.start(),
                    vpn.0 - area0.start(),
                ),
            decreases area0.end() - vpn.0,
        {
            let ghost a1 = *allocator;
            let ghost m1 = *mem;
            let ghost pt1 = *page_table;
            let ghost area1 = *self;
            let r = self.map_one(page_table, vpn, allocator, mem);
            proof {
                lemma_map_step(
                    &area0,
                    &pt0,
                    &a0,
                    &m0,
                    &area1,
                    &pt1,
                    &a1,
                    &m1,
                    self,
                    page_table,
                    allocator,
                    mem,
                    vpn,
                    r,
                );
            }
            match r {
                Err(e) => {
                    let ghost a2 = *allocator;
                    let ghost m2 = *mem;
                    let ghost pt2 = *page_table;
                    let ghost area2 = *self;
                    let undone = self.unmap_up_to(page_table, vpn, allocator, mem);
                    proof {
                        lemma_map_rolled_back(
                            &area0,
                            &pt0,
                            &a0,
                            &m0,
                            &area2,
                            &pt2,
                            &a2,
                            &m2,
                            self,
                            page_table,
                            allocator,
                            mem,
                            vpn,
                            e,
                            undone,
                        );
                    }
                    return Err(e);
                },
                Ok(()) => {},
            }
            vpn.step();
        }
        proof {
            lemma_map_done(&area0, &pt0, &a0, &m0, self, page_table, allocator, mem);
        }
        Ok(())
    }

    /// Unmaps the pages of the area before page `stop`, the first one first,
    /// as [`Self::unmap_one`] does. Stops early at the first page that is
    /// not mapped, and returns that page as the error; the pages before it
    /// stay unmapped.
    #[verifier::spinoff_prover]
    pub fn unmap_up_to(
        &mut self,
        page_table: &mut PageTable,
        stop: VirtPageNum,
        allocator: &mut StackFrameAllocator,
        mem: &mut PhysMemory,
    ) -> (r: Result<(), VirtPageNum>)
        requires
            old(self).inv(old(page_table), old(mem), old(allocator)),
            old(self).range().wf(),
            old(self).end() <= crate::address::VPN_LIMIT,
            old(self).start() <= stop.0 <= old(self).end(),
        ensures
            match r {
                Ok(()) => unmap_reached(
                    old(self),
                    old(page_table),
                    old(allocator),
                    old(mem),
                    final(self),
                    final(page_table),
                    final(allocator),
                    final(mem),
                    stop.0 as int,
                ),
                Err(at) => {
                    &&& old(self).start() <= at.0 < stop.0
                    &&& old(page_table).maps(old(mem), at).is_none()
                    &&& unmap_reached(
                        old(self),
                        old(page_table),
                        old(allocator),
                        old(mem),
                        final(self),
                        final(page_table),
                        final(allocator),
                        final(mem),
                        at.0 as int,
                    )
                },
            },
    {
        let ghost a0 = *allocator;
        let ghost m0 = *mem;
        let ghost pt0 = *page_table;
        let ghost area0 = *self;
        let mut vpn = self.vpn_range.get_start();
        proof {
            lemma_owned_allocated(&area0, &pt0, &m0, &a0);
            crate::frame_allocator::lemma_step_ok_refl(
                a0@,
                &m0,
                pt0.frame_set() + area0.frame_set(),
            );
        }
        while !vpn.meets(&stop)
            invariant
                area0 == *old(self),
                pt0 == *old(page_table),
                a0 == *old(allocator),
                m0 == *old(mem),
                area0.range().wf(),
                area0.end() <= crate::address::VPN_LIMIT,
                area0.start() <= vpn.0 <= stop.0 <= area0.end(),
                unmap_reached(
                    &area0,
                    &pt0,
                    &a0,
                    &m0,
                    self,
                    page_table,
                    allocator,
                    mem,
                    vpn.0 as int,
                ),
            decreases stop.0 - vpn.0,
        {
            let ghost a1 = *allocator;
            let ghost m1 = *mem;
            let ghost pt1 = *page_table;
            let ghost area1 = *self;
            let r = self.unmap_one(page_table, vpn, allocator, mem);
            proof {
                lemma_unmap_step(
                    &area0,
                    &pt0,
                    &a0,
                    &m0,
                    &area1,
                    &pt1,
                    &a1,
                    &m1,
                    self,
                    page_table,
                    allocator,
                    mem,
                    vpn,
                    r,
                );
            }
            match r {
                Err(_) => {
                    return Err(vpn);
                },
                Ok(()) => {},
            }
            vpn.step();
        }
        Ok(())
    }

    /// Unmaps every page of the area, as [`Self::unmap_up_to`] does up to
    /// the end of the area.
    #[verifier::spinoff_prover]
    pub fn unmap(
        &mut self,
        page_table: &mut PageTable,
        allocator: &mut StackFrameAllocator,
        mem: &mut PhysMemory,
    ) -> (r: Result<(), VirtPageNum>)
        requires
            old(self).inv(old(page_table), old(mem), old(allocator)),
            old(self).range().wf(),
            old(self).end() <= crate::address::VPN_LIMIT,
        ensures
            match r {
                Ok(()) => unmap_reached(
                    old(self),
                    old(page_table),
                    old(allocator),
                    old(mem),
                    final(self),
                    final(page_table),
                    final(allocator),
                    final(mem),
                    old(self).end(),
                ),
                Err(at) => {
                    &&& old(self).covers(at.0)
                    &&& old(page_table).maps(old(mem), at).is_none()
                    &&& unmap_reached(
                        old(self),
                        old(page_table),
                        old(allocator),
                        old(mem),
                        final(self),
                        final(page_table),
                        final(allocator),
                        final(mem),
                        at.0 as int,
                    )
                },
            },
    {
        let stop = self.vpn_range.get_end();
        self.unmap_up_to(page_table, stop, allocator, mem)
    }

    /// The frame of the `k`-th page of the area.
    pub open spec fn frame_at(&self, k: int) -> PhysPageNum {
        self.framed()[(self.start() + k) as u64]
    }

    /// The area is framed and ready to take data: every page of it is mapped
    /// in `table` to a frame of its own in `mem`, and none of these frames
    /// holds a node of the table.
    #[verifier::opaque]
    pub open spec fn data_ready(&self, table: &PageTable, mem: &PhysMemory) -> bool {
        &&& self.kind() == MapType::Framed
        &&& self.range().wf()
        &&& self.end() <= crate::address::VPN_LIMIT
        &&& mem.wf()
        &&& table.wf(mem)
        &&& forall|v: u64| #[trigger]
            self.covers(v) ==> self.framed().contains_key(v) && mem.contains(self.framed()[v])
                && !table.owns(self.framed()[v]) && table.maps(mem, VirtPageNum(v)) == Some(
                self.entry(v),
            )
        &&& forall|v: u64, w: u64|
            #![trigger self.framed().contains_key(v), self.framed().contains_key(w)]
            self.framed().contains_key(v) && self.framed().contains_key(w) && v != w
                ==> self.framed()[v] != self.framed()[w]
    }

    /// Copies `data` into the frames of the area, from the first byte of the
    /// first page on. Every byte of memory that the data does not reach keeps
    /// its value.
    #[verifier::spinoff_prover]
    pub fn copy_data(&self, page_table: &PageTable, data: &[u8], mem: &mut PhysMemory)
        requires
            self.data_ready(page_table, old(mem)),
            data@.len() <= self.range().count() * 4096,
        ensures
            copy_post(self, page_table, old(mem), final(mem), data@),
    {
        let ghost m0 = *mem;
        let mut start: usize = 0;
        let mut current_vpn = self.vpn_range.get_start();
        let len = data.len();
        proof {
            lemma_copied_start(self, &m0, data@);
            assert(mem.wf()) by {
                reveal(MapArea::data_ready);
            }
        }
        while start < len
            invariant
                m0 == *old(mem),
                len == data@.len(),
                self.data_ready(page_table, &m0),
                len <= self.range().count() * 4096,
                mem.wf(),
                mem.same_range(&m0),
                start <= len,
                start < len ==> start % 4096 == 0 && current_vpn.0 == self.start() + start / 4096,
                copied(self, &m0, mem, data@, start as int),
            decreases len - start,
        {
            proof {
                lemma_copied_ready(self, page_table, &m0, mem, data@, start as int);
                lemma_ready_page(self, page_table, mem, start as int / 4096);
                lemma_ready_page(self, page_table, &m0, start as int / 4096);
                lemma_wf_walkable(page_table, mem);
            }
            let ppn = match page_table.translate(current_vpn, mem) {
                Some(pte) => pte.ppn(),
                None => {
                    return ;
                },
            };
            let chunk: usize = if len - start < 4096 {
                len - start
            } else {
                4096
            };
            let mut j: usize = 0;
            while j < chunk
                invariant
                    m0 == *old(mem),
                    len == data@.len(),
                    self.data_ready(page_table, &m0),
                    len <= self.range().count() * 4096,
                    mem.wf(),
                    mem.same_range(&m0),
                    start % 4096 == 0,
                    start < len,
                    chunk <= 4096,
                    start + chunk <= len,
                    j <= chunk,
                    m0.contains(ppn),
                    ppn == self.frame_at(start as int / 4096),
                    copied(self, &m0, mem, data@, start + j),
                decreases chunk - j,
            {
                let ghost m2 = *mem;
                mem.write_byte(ppn, j, data[start + j]);
                proof {
                    lemma_copied_step(self, page_table, &m0, &m2, mem, data@, start + j);
                }
                j += 1;
            }
            start += chunk;
            if start < len {
                current_vpn.step();
            }
        }
        proof {
            lemma_copied_done(self, page_table, &m0, mem, data@);
        }
    }

    /// The frame that the area owns for page `vpn`, if it owns one.
    pub fn frame_for(&self, vpn: VirtPageNum) -> (r: Option<PhysPageNum>)
        ensures
            r == if self.framed().contains_key(vpn.0) {
                Some(self.framed()[vpn.0])
            } else {
                None
            },
    {
        match self.data_frames.get(&vpn.0) {
            Some(frame) => Some(frame.ppn),
            None => None,
        }
    }

    /// The permissions of the area.
    pub fn permission(&self) -> (p: MapPermission)
        ensures
            p == self.perm(),
    {
        self.map_perm
    }

    /// How the pages of the area are mapped.
    pub fn map_type(&self) -> (t: MapType)
        ensures
            t == self.kind(),
    {
        self.map_type
    }

    /// The first page of the area and the page just past its last one.
    pub fn bounds(&self) -> (r: (VirtPageNum, VirtPageNum))
        ensures
            r.0 == self.range().start(),
            r.1 == self.range().end(),
    {
        (self.vpn_range.get_start(), self.vpn_range.get_end())
    }

    /// An area over the pages from the one that holds `start_va` up to the
    /// first page boundary at or after `end_va`. It owns no frame yet.
    #[verifier::spinoff_prover]
    pub fn new(
        start_va: VirtAddr,
        end_va: VirtAddr,
        map_type: MapType,
        map_perm: MapPermission,
    ) -> (area: MapArea)
        requires
            start_va.0 <= end_va.0,
            end_va.0 + 4095 <= u64::MAX,
        ensures
            area.range().start() == start_va.floor(),
            area.range().end() == end_va.ceil(),
            area.range().wf(),
            area.kind() == map_type,
            area.perm() == map_perm,
            area.framed() == Map::<u64, PhysPageNum>::empty(),
    {
        let start_vpn: VirtPageNum = start_va.floor();
        let end_vpn: VirtPageNum = end_va.ceil();
        let area = MapArea {
            vpn_range: VPNRange::new(start_vpn, end_vpn),
            data_frames: BTreeMap::new(),
            map_type,
            map_perm,
        };
        assert(area.framed() =~= Map::<u64, PhysPageNum>::empty());
        area
    }
}

/// What one call of [`MapArea::map_one`] for page `vpn` does: how the area
/// `area1`, its table `pt1`, the allocator `a1` and the memory `m1` came out
/// of `area0`, `pt0`, `a0` and `m0`, and what the call returned.
pub open spec fn map_one_post(
    area0: &MapArea,
    pt0: &PageTable,
    a0: &StackFrameAllocator,
    m0: &PhysMemory,
    area1: &MapArea,
    pt1: &PageTable,
    a1: &StackFrameAllocator,
    m1: &PhysMemory,
    vpn: VirtPageNum,
    r: Result<(), MapError>,
) -> bool {
    &&& area1.inv(pt1, m1, a1)
    &&& area1.range() == area0.range()
    &&& area1.kind() == area0.kind()
    &&& area1.perm() == area0.perm()
    &&& pt1.root() == pt0.root()
    &&& forall|p: PhysPageNum| #[trigger] pt0.owns(p) ==> pt1.owns(p)
    &&& step_ok(
        a0@,
        m0,
        a1@,
        m1,
        pt0.frame_set() + area0.frame_set(),
        pt1.frame_set() + area1.frame_set(),
    )
    &&& forall|v: VirtPageNum|
        !same_indexes(v, vpn) ==> #[trigger] pt1.maps(m1, v) == pt0.maps(m0, v)
    &&& forall|v: u64| #[trigger]
        area0.framed().contains_key(v) ==> m1.same_page(
            m0,
            area0.framed()[v],
        )
    &&& r.is_ok() <==> pt0.maps(m0, vpn).is_none() && a0@.free_count() >= area0.frames_needed(pt0, m0, vpn)
    &&& match r {
        Ok(()) => {
            &&& pt1.maps(m1, vpn) == Some(area1.entry(vpn.0))
            &&& a1@.free_count() == a0@.free_count() - area0.frames_needed(pt0, m0, vpn)
            &&& match area0.kind() {
                MapType::Framed => {
                    &&& !area0.framed().contains_key(vpn.0)
                    &&& area1.framed() == area0.framed().insert(
                        vpn.0,
                        area1.framed()[vpn.0],
                    )
                    &&& !a0.is_allocated(area1.framed()[vpn.0])
                    &&& m1.page_is_zero(area1.framed()[vpn.0])
                },
                MapType::Identical => area1.framed() == area0.framed(),
            }
        },
        Err(e) => {
            &&& area1.framed() == area0.framed()
            &&& pt1.maps(m1, vpn) == pt0.maps(
                m0,
                vpn,
            )
            &&& e == MapError::AlreadyMapped ==> pt0.maps(m0, vpn).is_some()
            &&& e == MapError::OutOfFrames ==> a0@.free_count() < area0.frames_needed(
                pt0,
                m0,
                vpn,
            )
            &&& e != MapError::NotMapped
        },
    }
}

/// A step by someone who owns none of the area's frames, and which changes
/// no translation, leaves the area's frames as they are.
#[verifier::spinoff_prover]
proof fn lemma_area_kept(
    area: &MapArea,
    table: &PageTable,
    a0: &StackFrameAllocator,
    m0: &PhysMemory,
    a1: &StackFrameAllocator,
    m1: &PhysMemory,
    mine: Set<PhysPageNum>,
)
    requires
        area.inv(table, m0, a0),
        table.inv(m1, a1),
        others_untouched(a0@, m0, a1@, m1, mine),
        forall|p: PhysPageNum| #[trigger] area.owns(p) ==> !mine.contains(p),
        forall|v: VirtPageNum| #[trigger] table.maps(m1, v) == table.maps(m0, v),
    ensures
        area.inv(table, m1, a1),
        forall|v: u64| #[trigger]
            area.framed().contains_key(v) ==> m1.same_page(m0, area.framed()[v]),
{
    assert forall|v: u64| #[trigger] area.framed().contains_key(v) implies m1.contains(
        area.framed()[v],
    ) && a1.is_allocated(area.framed()[v]) && m1.same_page(m0, area.framed()[v]) by {
        let p = area.framed()[v];
        assert(area.owns(p));
        assert(a0.is_allocated(p));
        assert(frame_kept(a1@, m0, m1, p));
    }
    assert forall|v: u64| #[trigger] area.framed().contains_key(v) implies translation(
        m1,
        table.root(),
        VirtPageNum(v),
    ) == Some(area.entry(v)) by {
        assert(table.maps(m1, VirtPageNum(v)) == table.maps(m0, VirtPageNum(v)));
    }
}

/// The area's frames are as they were after its table has been extended by
/// a step that mapped or tried to map page `vpn`, which the area has no
/// frame for.
#[verifier::spinoff_prover]
proof fn lemma_area_survives(
    area: &MapArea,
    before: &PageTable,
    after: &PageTable,
    a0: &StackFrameAllocator,
    m0: &PhysMemory,
    a1: &StackFrameAllocator,
    m1: &PhysMemory,
    vpn: VirtPageNum,
)
    requires
        area.inv(before, m0, a0),
        after.inv(m1, a1),
        after.extends(before, a0, m0, a1, m1),
        vpn.is_valid(),
        forall|v: VirtPageNum|
            !same_indexes(v, vpn) ==> #[trigger] after.maps(m1, v) == before.maps(m0, v),
        area.framed().contains_key(vpn.0) ==> after.maps(m1, vpn) == before.maps(m0, vpn),
    ensures
        area.inv(after, m1, a1),
        forall|v: u64| #[trigger]
            area.framed().contains_key(v) ==> m1.same_page(m0, area.framed()[v]),
{
    assert forall|v: u64| #[trigger] area.framed().contains_key(v) implies m1.contains(
        area.framed()[v],
    ) && a1.is_allocated(area.framed()[v]) && m1.same_page(m0, area.framed()[v]) by {
        let p = area.framed()[v];
        assert(area.owns(p));
        assert(!before.owns(p));
        assert(a0.is_allocated(p));
        assert(frame_kept(a1@, m0, m1, p));
    }
    assert forall|v: u64| #[trigger] area.framed().contains_key(v) implies translation(
        m1,
        after.root(),
        VirtPageNum(v),
    ) == Some(area.entry(v)) by {
        if v != vpn.0 {
            if same_indexes(VirtPageNum(v), vpn) {
                crate::address::lemma_indexes_injective(VirtPageNum(v), vpn);
            }
            assert(after.maps(m1, VirtPageNum(v)) == before.maps(m0, VirtPageNum(v)));
        }
    }
    assert forall|p: PhysPageNum| #[trigger] area.owns(p) implies !after.owns(p) by {
        assert(!before.owns(p));
        let v = choose|v: u64| #[trigger] area.framed().contains_key(v) && area.framed()[v] == p;
        assert(a0.is_allocated(p));
    }
}

/// The step in which a framed area took the fresh frame `ppn` for page `vpn`
/// and its table mapped the page to it.
#[verifier::spinoff_prover]
proof fn lemma_framed_step(
    area0: &MapArea,
    area2: &MapArea,
    pt0: &PageTable,
    pt2: &PageTable,
    a0: &StackFrameAllocator,
    m0: &PhysMemory,
    a1: &StackFrameAllocator,
    m1: &PhysMemory,
    a2: &StackFrameAllocator,
    m2: &PhysMemory,
    vpn: VirtPageNum,
    ppn: PhysPageNum,
)
    requires
        area0.inv(pt0, m0, a0),
        area0.inv(pt0, m1, a1),
        area0.inv(pt2, m2, a2),
        area0.kind() == MapType::Framed,
        area2.kind() == area0.kind(),
        area2.perm() == area0.perm(),
        vpn.is_valid(),
        !area0.framed().contains_key(vpn.0),
        area2.framed() == area0.framed().insert(vpn.0, ppn),
        others_untouched(a0@, m0, a1@, m1, Set::empty()),
        !a0.is_allocated(ppn),
        a1.is_allocated(ppn),
        m1.contains(ppn),
        m1.page_is_zero(ppn),
        forall|q: PhysPageNum| #[trigger] a1.is_allocated(q) <==> q == ppn || a0.is_allocated(q),
        pt2.extends(pt0, a1, m1, a2, m2),
        pt2.maps(m2, vpn) == Some(PageTableEntry::spec_new(ppn, area0.entry_flags())),
    ensures
        area2.inv(pt2, m2, a2),
        m2.page_is_zero(ppn),
        step_ok(
            a0@,
            m0,
            a2@,
            m2,
            pt0.frame_set() + area0.frame_set(),
            pt2.frame_set() + area2.frame_set(),
        ),
{
    let f0 = area0.framed();
    let f2 = area2.framed();
    assert(!pt0.owns(ppn)) by {
        if pt0.owns(ppn) {
            assert(a0.is_allocated(ppn));
        }
    }
    assert(!pt2.owns(ppn)) by {
        if pt2.owns(ppn) {
            assert(!a1.is_allocated(ppn));
        }
    }
    assert(frame_kept(a2@, m1, m2, ppn));
    assert(m2.page_is_zero(ppn)) by {
        assert forall|i: int| 0 <= i < 512 implies #[trigger] m2.word(ppn, i) == 0 by {
            assert(m1.word(ppn, i) == 0);
        }
    }
    assert forall|p: PhysPageNum| #[trigger] area2.owns(p) <==> area0.owns(p) || p == ppn by {
        if area2.owns(p) {
            let v = choose|v: u64| #[trigger] f2.contains_key(v) && f2[v] == p;
            if v != vpn.0 {
                assert(f0.contains_key(v) && f0[v] == p);
            }
        }
        if area0.owns(p) {
            let v = choose|v: u64| #[trigger] f0.contains_key(v) && f0[v] == p;
            assert(f2.contains_key(v) && f2[v] == p);
        }
        if p == ppn {
            assert(f2.contains_key(vpn.0) && f2[vpn.0] == p);
        }
    }
    assert forall|v: u64| #[trigger] f2.contains_key(v) implies m2.contains(f2[v])
        && a2.is_allocated(f2[v]) by {
        if v != vpn.0 {
            assert(f0.contains_key(v));
        }
    }
    assert forall|v: u64, w: u64|
        #![trigger f2.contains_key(v), f2.contains_key(w)]
        f2.contains_key(v) && f2.contains_key(w) && v != w implies f2[v] != f2[w] by {
        if v != vpn.0 && w != vpn.0 {
            assert(f0.contains_key(v) && f0.contains_key(w));
        } else if v == vpn.0 {
            assert(f0.contains_key(w));
            assert(a0.is_allocated(f0[w]));
        } else {
            assert(f0.contains_key(v));
            assert(a0.is_allocated(f0[v]));
        }
    }
    assert forall|v: u64| #[trigger] f2.contains_key(v) implies translation(
        m2,
        pt2.root(),
        VirtPageNum(v),
    ) == Some(area2.entry(v)) by {
        if v != vpn.0 {
            assert(f0.contains_key(v));
            assert(area0.entry(v) == area2.entry(v));
        }
    }
    assert forall|p: PhysPageNum| #[trigger] area2.owns(p) implies !pt2.owns(p) by {
        if p != ppn {
            assert(area0.owns(p));
        }
    }
    let mine0 = pt0.frame_set() + area0.frame_set();
    let mine2 = pt2.frame_set() + area2.frame_set();
    assert(others_untouched(a0@, m0, a1@, m1, mine0)) by {
        assert forall|p: PhysPageNum|
            a0@.is_allocated(p.0) && !mine0.contains(p) implies #[trigger] frame_kept(
            a1@,
            m0,
            m1,
            p,
        ) by {
            assert(!Set::<PhysPageNum>::empty().contains(p));
        }
    }
    assert forall|p: PhysPageNum| pt0.frame_set().contains(p) implies mine0.contains(p)
        || !a0@.is_allocated(p.0) by {}
    crate::frame_allocator::lemma_others_untouched_trans(
        a0@,
        m0,
        a1@,
        m1,
        a2@,
        m2,
        mine0,
        pt0.frame_set(),
    );
    assert forall|p: PhysPageNum| #[trigger]
        mine2.contains(p) && !mine0.contains(p) implies !a0@.is_allocated(p.0) by {
        if pt2.owns(p) {
            assert(!pt0.owns(p));
            assert(!a1.is_allocated(p));
            assert(a1.is_allocated(p) <==> p == ppn || a0.is_allocated(p));
        } else {
            assert(area2.owns(p));
            assert(!area0.owns(p));
        }
    }
    assert forall|p: PhysPageNum| #[trigger]
        a2@.is_allocated(p.0) <==> (a0@.is_allocated(p.0) && !mine0.contains(p)) || mine2.contains(
            p,
        ) by {
        assert(a2.is_allocated(p) <==> a1.is_allocated(p) || pt2.owns(p));
        assert(a1.is_allocated(p) <==> p == ppn || a0.is_allocated(p));
        assert(area2.owns(p) <==> area0.owns(p) || p == ppn);
        if pt0.owns(p) {
            assert(pt2.owns(p));
        }
        if area0.owns(p) {
            let v = choose|v: u64| #[trigger] f0.contains_key(v) && f0[v] == p;
            assert(a0.is_allocated(p));
        }
        if pt2.owns(p) && !pt0.owns(p) {
            assert(!a1.is_allocated(p));
        }
    }
}

/// The step in which a framed area took a fresh frame, its table failed to
/// map the page, and the frame was given back.
#[verifier::spinoff_prover]
proof fn lemma_failed_step(
    area: &MapArea,
    pt0: &PageTable,
    pt2: &PageTable,
    a0: &StackFrameAllocator,
    m0: &PhysMemory,
    a1: &StackFrameAllocator,
    m1: &PhysMemory,
    a2: &StackFrameAllocator,
    m2: &PhysMemory,
    a3: &StackFrameAllocator,
    ppn: PhysPageNum,
)
    requires
        area.inv(pt0, m0, a0),
        area.inv(pt2, m2, a2),
        others_untouched(a0@, m0, a1@, m1, Set::empty()),
        !a0.is_allocated(ppn),
        forall|q: PhysPageNum| #[trigger] a1.is_allocated(q) <==> q == ppn || a0.is_allocated(q),
        pt2.extends(pt0, a1, m1, a2, m2),
        !pt2.owns(ppn),
        a3.wf(),
        a3@.start == a2@.start,
        a3@.end == a2@.end,
        forall|q: PhysPageNum| #[trigger] a3.is_allocated(q) <==> q != ppn && a2.is_allocated(q),
    ensures
        area.inv(pt2, m2, a3),
        step_ok(
            a0@,
            m0,
            a3@,
            m2,
            pt0.frame_set() + area.frame_set(),
            pt2.frame_set() + area.frame_set(),
        ),
{
    let f = area.framed();
    assert forall|p: PhysPageNum| #[trigger] pt2.owns(p) implies a3.is_allocated(p) by {
        assert(a2.is_allocated(p));
    }
    assert forall|v: u64| #[trigger] f.contains_key(v) implies a3.is_allocated(f[v]) by {
        assert(a0.is_allocated(f[v]));
        assert(a2.is_allocated(f[v]));
    }
    let mine0 = pt0.frame_set() + area.frame_set();
    let mine2 = pt2.frame_set() + area.frame_set();
    assert(others_untouched(a0@, m0, a1@, m1, mine0)) by {
        assert forall|p: PhysPageNum|
            a0@.is_allocated(p.0) && !mine0.contains(p) implies #[trigger] frame_kept(
            a1@,
            m0,
            m1,
            p,
        ) by {
            assert(!Set::<PhysPageNum>::empty().contains(p));
        }
    }
    assert forall|p: PhysPageNum| pt0.frame_set().contains(p) implies mine0.contains(p)
        || !a0@.is_allocated(p.0) by {}
    crate::frame_allocator::lemma_others_untouched_trans(
        a0@,
        m0,
        a1@,
        m1,
        a2@,
        m2,
        mine0,
        pt0.frame_set(),
    );
    assert forall|p: PhysPageNum|
        a0@.is_allocated(p.0) && !mine0.contains(p) implies #[trigger] frame_kept(
        a3@,
        m0,
        m2,
        p,
    ) by {
        assert(frame_kept(a2@, m0, m2, p));
        assert(a3.is_allocated(p));
    }
    assert forall|p: PhysPageNum| #[trigger]
        mine2.contains(p) && !mine0.contains(p) implies !a0@.is_allocated(p.0) by {
        assert(pt2.owns(p) && !pt0.owns(p));
        assert(!a1.is_allocated(p));
        assert(a1.is_allocated(p) <==> p == ppn || a0.is_allocated(p));
    }
    assert forall|p: PhysPageNum| #[trigger]
        a3@.is_allocated(p.0) <==> (a0@.is_allocated(p.0) && !mine0.contains(p)) || mine2.contains(
            p,
        ) by {
        assert(a3.is_allocated(p) <==> p != ppn && a2.is_allocated(p));
        assert(a2.is_allocated(p) <==> a1.is_allocated(p) || pt2.owns(p));
        assert(a1.is_allocated(p) <==> p == ppn || a0.is_allocated(p));
        if pt0.owns(p) {
            assert(pt2.owns(p));
        }
        if area.owns(p) {
            let v = choose|v: u64| #[trigger] f.contains_key(v) && f[v] == p;
            assert(a0.is_allocated(p));
        }
    }
}

/// Every frame of an area and of its table is allocated.
#[verifier::spinoff_prover]
proof fn lemma_owned_allocated(
    area: &MapArea,
    table: &PageTable,
    mem: &PhysMemory,
    allocator: &StackFrameAllocator,
)
    requires
        area.inv(table, mem, allocator),
    ensures
        forall|p: PhysPageNum| #[trigger]
            (table.frame_set() + area.frame_set()).contains(p) ==> allocator@.is_allocated(p.0),
{
    assert forall|p: PhysPageNum| #[trigger]
        (table.frame_set() + area.frame_set()).contains(p) implies allocator@.is_allocated(
        p.0,
    ) by {
        if table.owns(p) {
            assert(allocator.is_allocated(p));
        } else {
            assert(area.owns(p));
            let v = choose|v: u64| #[trigger]
                area.framed().contains_key(v) && area.framed()[v] == p;
            assert(allocator.is_allocated(p));
        }
    }
}


/// The step in which an area gave back the frame `gone`, which it owned for
/// page `vpn`, after its table had unmapped the page.
#[verifier::spinoff_prover]
proof fn lemma_unframed_step(
    area0: &MapArea,
    area1: &MapArea,
    table: &PageTable,
    a0: &StackFrameAllocator,
    m0: &PhysMemory,
    a1: &StackFrameAllocator,
    m1: &PhysMemory,
    vpn: VirtPageNum,
    gone: PhysPageNum,
)
    requires
        area0.inv(table, m0, a0),
        table.wf(m1),
        m1.wf(),
        m1.same_range(m0),
        area1.kind() == area0.kind(),
        area1.perm() == area0.perm(),
        area0.framed().contains_key(vpn.0),
        area0.framed()[vpn.0] == gone,
        area1.framed() == area0.framed().remove(vpn.0),
        a1.wf(),
        a1@.start == a0@.start,
        a1@.end == a0@.end,
        forall|q: PhysPageNum| #[trigger] a1.is_allocated(q) <==> q != gone && a0.is_allocated(q),
        forall|p: PhysPageNum|
            m0.contains(p) && !table.owns(p) ==> #[trigger] m1.same_page(m0, p),
        forall|v: u64|
            #[trigger] area0.framed().contains_key(v) && v != vpn.0 ==> translation(
                m1,
                table.root(),
                VirtPageNum(v),
            ) == Some(area0.entry(v)),
    ensures
        area1.inv(table, m1, a1),
        step_ok(
            a0@,
            m0,
            a1@,
            m1,
            table.frame_set() + area0.frame_set(),
            table.frame_set() + area1.frame_set(),
        ),
{
    let f0 = area0.framed();
    let f1 = area1.framed();
    assert(area0.owns(gone));
    assert forall|p: PhysPageNum| #[trigger] area1.owns(p) <==> area0.owns(p) && p != gone by {
        if area1.owns(p) {
            let v = choose|v: u64| #[trigger] f1.contains_key(v) && f1[v] == p;
            assert(f0.contains_key(v) && f0.contains_key(vpn.0) && v != vpn.0);
        }
        if area0.owns(p) && p != gone {
            let v = choose|v: u64| #[trigger] f0.contains_key(v) && f0[v] == p;
            assert(f1.contains_key(v) && f1[v] == p);
        }
    }
    assert forall|p: PhysPageNum| #[trigger] table.owns(p) implies a1.is_allocated(p) by {
        assert(a0.is_allocated(p));
        assert(!area0.owns(p));
    }
    assert forall|v: u64| #[trigger] f1.contains_key(v) implies m1.contains(f1[v])
        && a1.is_allocated(f1[v]) && VirtPageNum(v).is_valid() by {
        assert(f0.contains_key(v) && f0.contains_key(vpn.0) && v != vpn.0);
    }
    assert forall|v: u64, w: u64|
        #![trigger f1.contains_key(v), f1.contains_key(w)]
        f1.contains_key(v) && f1.contains_key(w) && v != w implies f1[v] != f1[w] by {
        assert(f0.contains_key(v) && f0.contains_key(w));
    }
    assert forall|v: u64| #[trigger] f1.contains_key(v) implies translation(
        m1,
        table.root(),
        VirtPageNum(v),
    ) == Some(area1.entry(v)) by {
        assert(f0.contains_key(v) && v != vpn.0);
        assert(area0.entry(v) == area1.entry(v));
    }
    assert forall|p: PhysPageNum| #[trigger] area1.owns(p) implies !table.owns(p) by {
        assert(area0.owns(p));
    }
    let mine0 = table.frame_set() + area0.frame_set();
    let mine1 = table.frame_set() + area1.frame_set();
    assert forall|p: PhysPageNum|
        a0@.is_allocated(p.0) && !mine0.contains(p) implies #[trigger] frame_kept(a1@, m0, m1, p) by {
        assert(a1.is_allocated(p) <==> p != gone && a0.is_allocated(p));
        assert(m0.contains(p));
        assert(!table.owns(p));
    }
    assert forall|p: PhysPageNum| #[trigger]
        a1@.is_allocated(p.0) <==> (a0@.is_allocated(p.0) && !mine0.contains(p)) || mine1.contains(
            p,
        ) by {
        assert(a1.is_allocated(p) <==> p != gone && a0.is_allocated(p));
        assert(area1.owns(p) <==> area0.owns(p) && p != gone);
        if table.owns(p) {
            assert(a0.is_allocated(p));
            assert(!area0.owns(p));
        }
        if area0.owns(p) {
            let v = choose|v: u64| #[trigger] f0.contains_key(v) && f0[v] == p;
            assert(a0.is_allocated(p));
        }
    }
}

/// What one call of [`MapArea::unmap_one`] for page `vpn` does: how the
/// area `area1`, its table `pt1`, the allocator `a1` and the memory `m1`
/// came out of `area0`, `pt0`, `a0` and `m0`, and what the call returned.
pub open spec fn unmap_one_post(
    area0: &MapArea,
    pt0: &PageTable,
    a0: &StackFrameAllocator,
    m0: &PhysMemory,
    area1: &MapArea,
    pt1: &PageTable,
    a1: &StackFrameAllocator,
    m1: &PhysMemory,
    vpn: VirtPageNum,
    r: Result<(), MapError>,
) -> bool {
    &&& area1.inv(pt1, m1, a1)
    &&& area1.range() == area0.range()
    &&& area1.kind() == area0.kind()
    &&& area1.perm() == area0.perm()
    &&& *pt1 == *pt0
    &&& step_ok(
        a0@,
        m0,
        a1@,
        m1,
        pt0.frame_set() + area0.frame_set(),
        pt1.frame_set() + area1.frame_set(),
    )
    &&& forall|v: VirtPageNum|
        !same_indexes(v, vpn) ==> #[trigger] pt1.maps(m1, v) == pt0.maps(m0, v)
    &&& forall|v: u64| #[trigger]
        area0.framed().contains_key(v) ==> m1.same_page(m0, area0.framed()[v])
    &&& pt1.maps(m1, vpn).is_none()
    &&& r.is_ok() <==> pt0.maps(m0, vpn).is_some()
    &&& match r {
        Ok(()) => area1.framed() == area0.framed().remove(vpn.0),
        Err(e) => {
            &&& e == MapError::NotMapped
            &&& area1.framed() == area0.framed()
            &&& *m1 == *m0
            &&& a1@ == a0@
        },
    }
}

/// What [`MapArea::unmap`] does: how the area `area1`, its table `pt1`, the
/// allocator `a1` and the memory `m1` came out of `area0`, `pt0`, `a0` and
/// `m0` when the pages of the area before page `cur` were unmapped.
pub open spec fn unmap_reached(
    area0: &MapArea,
    pt0: &PageTable,
    a0: &StackFrameAllocator,
    m0: &PhysMemory,
    area1: &MapArea,
    pt1: &PageTable,
    a1: &StackFrameAllocator,
    m1: &PhysMemory,
    cur: int,
) -> bool {
    &&& area1.inv(pt1, m1, a1)
    &&& area1.range() == area0.range()
    &&& area1.kind() == area0.kind()
    &&& area1.perm() == area0.perm()
    &&& *pt1 == *pt0
    &&& step_ok(
        a0@,
        m0,
        a1@,
        m1,
        pt0.frame_set() + area0.frame_set(),
        pt1.frame_set() + area1.frame_set(),
    )
    &&& forall|v: VirtPageNum|
        v.is_valid() && !(area0.start() <= v.0 < cur) ==> #[trigger] pt1.maps(m1, v) == pt0.maps(
            m0,
            v,
        )
    &&& forall|v: u64|
        area0.start() <= v < cur ==> (#[trigger] pt0.maps(m0, VirtPageNum(v))).is_some()
    &&& forall|v: u64|
        area0.start() <= v < cur ==> (#[trigger] pt1.maps(m1, VirtPageNum(v))).is_none()
    &&& forall|v: u64| #[trigger]
        area1.framed().contains_key(v) <==> area0.framed().contains_key(v) && !(area0.start()
            <= v < cur)
    &&& forall|v: u64| #[trigger]
        area1.framed().contains_key(v) ==> area1.framed()[v] == area0.framed()[v]
            && m1.same_page(m0, area0.framed()[v])
}

/// One call of `unmap_one` for the next page extends what was reached by
/// that page, or changes nothing and reports that the page was not mapped.
#[verifier::spinoff_prover]
proof fn lemma_unmap_step(
    area0: &MapArea,
    pt0: &PageTable,
    a0: &StackFrameAllocator,
    m0: &PhysMemory,
    area1: &MapArea,
    pt1: &PageTable,
    a1: &StackFrameAllocator,
    m1: &PhysMemory,
    area2: &MapArea,
    pt2: &PageTable,
    a2: &StackFrameAllocator,
    m2: &PhysMemory,
    vpn: VirtPageNum,
    r: Result<(), MapError>,
)
    requires
        area0.range().wf(),
        area0.start() <= vpn.0 < area0.end(),
        area0.end() <= crate::address::VPN_LIMIT,
        unmap_reached(area0, pt0, a0, m0, area1, pt1, a1, m1, vpn.0 as int),
        unmap_one_post(area1, pt1, a1, m1, area2, pt2, a2, m2, vpn, r),
    ensures
        r.is_ok() ==> unmap_reached(area0, pt0, a0, m0, area2, pt2, a2, m2, vpn.0 + 1),
        r.is_err() ==> unmap_reached(area0, pt0, a0, m0, area2, pt2, a2, m2, vpn.0 as int)
            && pt0.maps(m0, vpn).is_none(),
{
    lemma_step_ok_trans(
        a0@,
        m0,
        a1@,
        m1,
        a2@,
        m2,
        pt0.frame_set() + area0.frame_set(),
        pt1.frame_set() + area1.frame_set(),
        pt2.frame_set() + area2.frame_set(),
    );
    assert forall|v: VirtPageNum| v.is_valid() && v != vpn implies !same_indexes(v, vpn) by {
        if same_indexes(v, vpn) {
            crate::address::lemma_indexes_injective(v, vpn);
        }
    }
    assert(pt1.maps(m1, vpn) == pt0.maps(m0, vpn));
    assert forall|v: VirtPageNum|
        v.is_valid() && !(area0.start() <= v.0 < vpn.0 + 1) implies #[trigger] pt2.maps(m2, v)
        == pt0.maps(m0, v) by {
        assert(v != vpn);
        assert(pt2.maps(m2, v) == pt1.maps(m1, v));
        assert(pt1.maps(m1, v) == pt0.maps(m0, v));
    }
    assert forall|v: u64| area0.start() <= v < vpn.0 implies (#[trigger] pt2.maps(
        m2,
        VirtPageNum(v),
    )).is_none() by {
        assert(VirtPageNum(v).is_valid() && VirtPageNum(v) != vpn);
        assert(pt2.maps(m2, VirtPageNum(v)) == pt1.maps(m1, VirtPageNum(v)));
        assert(pt1.maps(m1, VirtPageNum(v)).is_none());
    }
    assert forall|v: u64| #[trigger] area2.framed().contains_key(v) implies area2.framed()[v]
        == area0.framed()[v] && m2.same_page(m0, area0.framed()[v]) by {
        assert(area1.framed().contains_key(v));
        let p = area0.framed()[v];
        assert(m2.same_page(m1, area1.framed()[v]));
        assert(m1.same_page(m0, p));
        assert forall|i: int| 0 <= i < 512 implies #[trigger] m2.word(p, i) == m0.word(p, i) by {
            assert(m2.word(p, i) == m1.word(p, i));
        }
    }
    if r.is_err() {
        assert forall|v: VirtPageNum|
            v.is_valid() && !(area0.start() <= v.0 < vpn.0) implies #[trigger] pt2.maps(m2, v)
            == pt0.maps(m0, v) by {
            if v != vpn {
                assert(pt2.maps(m2, v) == pt1.maps(m1, v));
            }
            assert(pt1.maps(m1, v) == pt0.maps(m0, v));
        }
    } else {
        assert forall|v: u64| area0.start() <= v < vpn.0 + 1 implies (#[trigger] pt0.maps(
            m0,
            VirtPageNum(v),
        )).is_some() by {
            if v != vpn.0 {
                assert(area0.start() <= v < vpn.0);
            }
        }
        assert forall|v: u64| area0.start() <= v < vpn.0 + 1 implies (#[trigger] pt2.maps(
            m2,
            VirtPageNum(v),
        )).is_none() by {
            if v != vpn.0 {
                assert(area0.start() <= v < vpn.0);
            }
        }
    }
}

/// What [`MapArea::map`] does: how the area `area1`, its table `pt1`, the
/// allocator `a1` and the memory `m1` came out of `area0`, `pt0`, `a0` and
/// `m0`, and what the call returned.
pub open spec fn map_post(
    area0: &MapArea,
    pt0: &PageTable,
    a0: &StackFrameAllocator,
    m0: &PhysMemory,
    area1: &MapArea,
    pt1: &PageTable,
    a1: &StackFrameAllocator,
    m1: &PhysMemory,
    r: Result<(), MapError>,
) -> bool {
    &&& area1.inv(pt1, m1, a1)
    &&& area1.range() == area0.range()
    &&& area1.kind() == area0.kind()
    &&& area1.perm() == area0.perm()
    &&& pt1.root() == pt0.root()
    &&& forall|p: PhysPageNum| #[trigger] pt0.owns(p) ==> pt1.owns(p)
    &&& step_ok(
        a0@,
        m0,
        a1@,
        m1,
        pt0.frame_set() + area0.frame_set(),
        pt1.frame_set() + area1.frame_set(),
    )
    &&& forall|v: VirtPageNum|
        v.is_valid() && !area0.covers(v.0) ==> #[trigger] pt1.maps(m1, v) == pt0.maps(m0, v)
    &&& forall|v: u64| #[trigger]
        area0.framed().contains_key(v) ==> area1.framed().contains_key(v) && area1.framed()[v]
            == area0.framed()[v] && m1.same_page(m0, area0.framed()[v])
    &&& forall|v: u64| #[trigger]
        area1.framed().contains_key(v) ==> area0.framed().contains_key(v) || area0.covers(v)
    &&& match r {
        Ok(()) => {
            &&& forall|v: u64| #[trigger]
                area0.covers(v) ==> pt0.maps(m0, VirtPageNum(v)).is_none()
            &&& forall|v: u64| #[trigger]
                area0.covers(v) ==> pt1.maps(m1, VirtPageNum(v)) == Some(area1.entry(v))
            &&& area0.kind() == MapType::Framed ==> forall|v: u64| #[trigger]
                area0.covers(v) ==> area1.framed().contains_key(v) && m1.page_is_zero(
                    area1.framed()[v],
                ) && !a0.is_allocated(area1.framed()[v])
            &&& a1@.free_count() >= a0@.free_count() - area0.shape().frames()
        },
        Err(e) => {
            &&& e != MapError::NotMapped
            &&& e == MapError::AlreadyMapped ==> exists|v: u64| #[trigger]
                area0.covers(v) && pt0.maps(m0, VirtPageNum(v)).is_some()
            &&& e == MapError::OutOfFrames ==> a0@.free_count() < area0.shape().frames()
            &&& area1.framed() == area0.framed()
            &&& forall|v: VirtPageNum|
                v.is_valid() ==> #[trigger] pt1.maps(m1, v) == pt0.maps(m0, v)
        },
    }
}

/// If the area is framed, each of its pages before page `cur` has a frame
/// that is zeroed and was free when the mapping of the area began.
#[verifier::opaque]
pub open spec fn fresh_pages(
    area0: &MapArea,
    a0: &StackFrameAllocator,
    area1: &MapArea,
    m1: &PhysMemory,
    cur: int,
) -> bool {
    area0.kind() == MapType::Framed ==> forall|v: u64|
        area0.start() <= v < cur ==> #[trigger] area1.framed().contains_key(v) && m1.page_is_zero(
            area1.framed()[v],
        ) && !a0.is_allocated(area1.framed()[v])
}

/// What [`MapArea::map`] has achieved once it has mapped the pages of the
/// area before page `cur`.
#[verifier::opaque]
pub open spec fn map_reached(
    area0: &MapArea,
    pt0: &PageTable,
    a0: &StackFrameAllocator,
    m0: &PhysMemory,
    area1: &MapArea,
    pt1: &PageTable,
    a1: &StackFrameAllocator,
    m1: &PhysMemory,
    cur: int,
) -> bool {
    &&& area0.inv(pt0, m0, a0)
    &&& area1.range() == area0.range()
    &&& area1.kind() == area0.kind()
    &&& area1.perm() == area0.perm()
    &&& pt1.root() == pt0.root()
    &&& forall|p: PhysPageNum| #[trigger] pt0.owns(p) ==> pt1.owns(p)
    &&& step_ok(
        a0@,
        m0,
        a1@,
        m1,
        pt0.frame_set() + area0.frame_set(),
        pt1.frame_set() + area1.frame_set(),
    )
    &&& forall|v: VirtPageNum|
        v.is_valid() && !(area0.start() <= v.0 < cur) ==> #[trigger] pt1.maps(m1, v) == pt0.maps(
            m0,
            v,
        )
    &&& forall|v: u64| #[trigger]
        area0.framed().contains_key(v) ==> area1.framed().contains_key(v) && area1.framed()[v]
            == area0.framed()[v] && m1.same_page(m0, area0.framed()[v])
    &&& forall|v: u64| #[trigger]
        area1.framed().contains_key(v) ==> area0.framed().contains_key(v) || (area0.start() <= v
            < cur)
    &&& forall|v: u64|
        area0.start() <= v < cur ==> (#[trigger] pt0.maps(m0, VirtPageNum(v))).is_none()
    &&& forall|v: u64|
        area0.start() <= v < cur ==> #[trigger] pt1.maps(m1, VirtPageNum(v)) == Some(
            area1.entry(v),
        )
    &&& fresh_pages(area0, a0, area1, m1, cur)
}

/// Before the first page, nothing has been done.
#[verifier::spinoff_prover]
proof fn lemma_map_start(
    area0: &MapArea,
    pt0: &PageTable,
    a0: &StackFrameAllocator,
    m0: &PhysMemory,
)
    requires
        area0.inv(pt0, m0, a0),
    ensures
        map_reached(area0, pt0, a0, m0, area0, pt0, a0, m0, area0.start()),
{
    reveal(map_reached);
    reveal(fresh_pages);
    lemma_owned_allocated(area0, pt0, m0, a0);
    crate::frame_allocator::lemma_step_ok_refl(a0@, m0, pt0.frame_set() + area0.frame_set());
}

/// After the last page, the whole area is mapped.
#[verifier::spinoff_prover]
proof fn lemma_map_done(
    area0: &MapArea,
    pt0: &PageTable,
    a0: &StackFrameAllocator,
    m0: &PhysMemory,
    area1: &MapArea,
    pt1: &PageTable,
    a1: &StackFrameAllocator,
    m1: &PhysMemory,
)
    requires
        area1.inv(pt1, m1, a1),
        area0.range().wf(),
        map_reached(area0, pt0, a0, m0, area1, pt1, a1, m1, area0.end()),
        a1@.free_count() >= a0@.free_count() - frames_bound(
            area0.kind(),
            area0.start(),
            area0.end() - area0.start(),
        ),
    ensures
        map_post(area0, pt0, a0, m0, area1, pt1, a1, m1, Ok(())),
{
    reveal(map_reached);
    reveal(fresh_pages);
    assert forall|v: u64| #[trigger] area0.covers(v) implies pt0.maps(
        m0,
        VirtPageNum(v),
    ).is_none() by {}
    assert forall|v: u64| #[trigger] area0.covers(v) implies pt1.maps(m1, VirtPageNum(v))
        == Some(area1.entry(v)) by {}
    if area0.kind() == MapType::Framed {
        assert forall|v: u64| #[trigger] area0.covers(v) implies area1.framed().contains_key(v)
            && m1.page_is_zero(area1.framed()[v]) && !a0.is_allocated(area1.framed()[v]) by {}
    }
}

/// What one call of `map_one` for page `vpn` keeps of what the calls for the
/// pages before it have reached.
#[verifier::spinoff_prover]
proof fn lemma_map_step_common(
    area0: &MapArea,
    pt0: &PageTable,
    a0: &StackFrameAllocator,
    m0: &PhysMemory,
    area1: &MapArea,
    pt1: &PageTable,
    a1: &StackFrameAllocator,
    m1: &PhysMemory,
    area2: &MapArea,
    pt2: &PageTable,
    a2: &StackFrameAllocator,
    m2: &PhysMemory,
    vpn: VirtPageNum,
    r: Result<(), MapError>,
)
    requires
        area0.range().wf(),
        area0.start() <= vpn.0 < area0.end(),
        area0.end() <= crate::address::VPN_LIMIT,
        area1.inv(pt1, m1, a1),
        map_reached(area0, pt0, a0, m0, area1, pt1, a1, m1, vpn.0 as int),
        map_one_post(area1, pt1, a1, m1, area2, pt2, a2, m2, vpn, r),
    ensures
        area0.inv(pt0, m0, a0),
        area2.range() == area0.range(),
        area2.kind() == area0.kind(),
        area2.perm() == area0.perm(),
        pt2.root() == pt0.root(),
        forall|p: PhysPageNum| #[trigger] pt0.owns(p) ==> pt2.owns(p),
        step_ok(
            a0@,
            m0,
            a2@,
            m2,
            pt0.frame_set() + area0.frame_set(),
            pt2.frame_set() + area2.frame_set(),
        ),
        pt1.maps(m1, vpn) == pt0.maps(m0, vpn),
        forall|v: VirtPageNum|
            v.is_valid() && !(area0.start() <= v.0 < vpn.0 + 1) ==> #[trigger] pt2.maps(m2, v)
                == pt0.maps(m0, v),
        forall|v: u64| #[trigger]
            area0.framed().contains_key(v) ==> area2.framed().contains_key(v)
                && area2.framed()[v] == area0.framed()[v] && m2.same_page(m0, area0.framed()[v]),
        forall|v: u64| #[trigger]
            area2.framed().contains_key(v) ==> area0.framed().contains_key(v) || (area0.start()
                <= v < vpn.0 + 1),
        forall|v: u64|
            area0.start() <= v < vpn.0 ==> (#[trigger] pt0.maps(m0, VirtPageNum(v))).is_none(),
        forall|v: u64|
            area0.start() <= v < vpn.0 ==> #[trigger] pt2.maps(m2, VirtPageNum(v)) == Some(
                area2.entry(v),
            ),
        fresh_pages(area0, a0, area2, m2, vpn.0 as int),
{
    reveal(map_reached);
    reveal(fresh_pages);
    lemma_step_ok_trans(
        a0@,
        m0,
        a1@,
        m1,
        a2@,
        m2,
        pt0.frame_set() + area0.frame_set(),
        pt1.frame_set() + area1.frame_set(),
        pt2.frame_set() + area2.frame_set(),
    );
    assert forall|v: VirtPageNum| v.is_valid() && v != vpn implies !same_indexes(v, vpn) by {
        if same_indexes(v, vpn) {
            crate::address::lemma_indexes_injective(v, vpn);
        }
    }
    assert forall|p: PhysPageNum| #[trigger] pt0.owns(p) implies pt2.owns(p) by {
        assert(pt1.owns(p));
    }
    assert(pt1.maps(m1, vpn) == pt0.maps(m0, vpn));
    assert forall|v: VirtPageNum|
        v.is_valid() && !(area0.start() <= v.0 < vpn.0 + 1) implies #[trigger] pt2.maps(m2, v)
        == pt0.maps(m0, v) by {
        assert(v != vpn);
        assert(pt2.maps(m2, v) == pt1.maps(m1, v));
        assert(pt1.maps(m1, v) == pt0.maps(m0, v));
    }
    assert forall|v: u64| #[trigger] area0.framed().contains_key(v) implies area2.framed().contains_key(
        v,
    ) && area2.framed()[v] == area0.framed()[v] && m2.same_page(m0, area0.framed()[v]) by {
        assert(area1.framed().contains_key(v));
        let p = area0.framed()[v];
        assert(m2.same_page(m1, area1.framed()[v]));
        assert(m1.same_page(m0, p));
        assert forall|i: int| 0 <= i < 512 implies #[trigger] m2.word(p, i) == m0.word(p, i) by {
            assert(m2.word(p, i) == m1.word(p, i));
        }
    }
    assert forall|v: u64| #[trigger] area2.framed().contains_key(v) implies area0.framed().contains_key(
        v,
    ) || (area0.start() <= v < vpn.0 + 1) by {
        if v != vpn.0 {
            assert(area1.framed().contains_key(v));
        }
    }
    assert forall|v: u64| area0.start() <= v < vpn.0 implies #[trigger] pt2.maps(
        m2,
        VirtPageNum(v),
    ) == Some(area2.entry(v)) by {
        assert(VirtPageNum(v).is_valid() && VirtPageNum(v) != vpn);
        assert(pt2.maps(m2, VirtPageNum(v)) == pt1.maps(m1, VirtPageNum(v)));
        assert(pt1.maps(m1, VirtPageNum(v)) == Some(area1.entry(v)));
        if area0.kind() == MapType::Framed {
            assert(area1.framed().contains_key(v));
        }
    }
    if area0.kind() == MapType::Framed {
        assert forall|v: u64| area0.start() <= v < vpn.0 implies #[trigger] area2.framed().contains_key(
            v,
        ) && m2.page_is_zero(area2.framed()[v]) && !a0.is_allocated(area2.framed()[v]) by {
            assert(area1.framed().contains_key(v));
            let p = area1.framed()[v];
            assert(m2.same_page(m1, p));
            assert(m1.page_is_zero(p));
            assert forall|i: int| 0 <= i < 512 implies #[trigger] m2.word(p, i) == 0 by {
                assert(m1.word(p, i) == 0);
            }
        }
    }
}

/// The frame that a framed area took for page `vpn` was free when the
/// mapping of the area began.
#[verifier::spinoff_prover]
proof fn lemma_new_frame_fresh(
    area0: &MapArea,
    pt0: &PageTable,
    a0: &StackFrameAllocator,
    m0: &PhysMemory,
    area1: &MapArea,
    pt1: &PageTable,
    a1: &StackFrameAllocator,
    m1: &PhysMemory,
    f: PhysPageNum,
    cur: int,
)
    requires
        area1.inv(pt1, m1, a1),
        map_reached(area0, pt0, a0, m0, area1, pt1, a1, m1, cur),
        !a1.is_allocated(f),
    ensures
        !a0.is_allocated(f),
{
    reveal(map_reached);
    if a0.is_allocated(f) {
        let mine0 = pt0.frame_set() + area0.frame_set();
        let mine1 = pt1.frame_set() + area1.frame_set();
        assert(a1@.is_allocated(f.0) <==> (a0@.is_allocated(f.0) && !mine0.contains(f))
            || mine1.contains(f));
        if pt0.owns(f) {
            assert(pt1.owns(f));
        } else if area0.owns(f) {
            let w = choose|w: u64| #[trigger]
                area0.framed().contains_key(w) && area0.framed()[w] == f;
            assert(area1.framed().contains_key(w) && area1.framed()[w] == f);
            assert(area1.owns(f));
        }
    }
}

/// If each page before page `vpn` has a fresh frame, and page `vpn` has one
/// too, then each page before the page after `vpn` has one.
proof fn lemma_fresh_pages_next(
    area0: &MapArea,
    a0: &StackFrameAllocator,
    area2: &MapArea,
    m2: &PhysMemory,
    vpn: VirtPageNum,
)
    requires
        fresh_pages(area0, a0, area2, m2, vpn.0 as int),
        area0.kind() == MapType::Framed ==> area2.framed().contains_key(vpn.0)
            && m2.page_is_zero(area2.framed()[vpn.0]) && !a0.is_allocated(area2.framed()[vpn.0]),
    ensures
        fresh_pages(area0, a0, area2, m2, vpn.0 + 1),
{
    reveal(fresh_pages);
    if area0.kind() == MapType::Framed {
        assert forall|v: u64| area0.start() <= v < vpn.0 + 1 implies #[trigger] area2.framed().contains_key(
            v,
        ) && m2.page_is_zero(area2.framed()[v]) && !a0.is_allocated(area2.framed()[v]) by {
            if v != vpn.0 {
                assert(area0.start() <= v < vpn.0);
            }
        }
    }
}

/// What has to hold for [`map_reached`] to hold.
#[verifier::spinoff_prover]
proof fn lemma_map_reached_intro(
    area0: &MapArea,
    pt0: &PageTable,
    a0: &StackFrameAllocator,
    m0: &PhysMemory,
    area1: &MapArea,
    pt1: &PageTable,
    a1: &StackFrameAllocator,
    m1: &PhysMemory,
    cur: int,
)
    requires
        area0.inv(pt0, m0, a0),
        area1.range() == area0.range(),
        area1.kind() == area0.kind(),
        area1.perm() == area0.perm(),
        pt1.root() == pt0.root(),
        forall|p: PhysPageNum| #[trigger] pt0.owns(p) ==> pt1.owns(p),
        step_ok(
            a0@,
            m0,
            a1@,
            m1,
            pt0.frame_set() + area0.frame_set(),
            pt1.frame_set() + area1.frame_set(),
        ),
        forall|v: VirtPageNum|
            v.is_valid() && !(area0.start() <= v.0 < cur) ==> #[trigger] pt1.maps(m1, v)
                == pt0.maps(m0, v),
        forall|v: u64| #[trigger]
            area0.framed().contains_key(v) ==> area1.framed().contains_key(v)
                && area1.framed()[v] == area0.framed()[v] && m1.same_page(m0, area0.framed()[v]),
        forall|v: u64| #[trigger]
            area1.framed().contains_key(v) ==> area0.framed().contains_key(v) || (area0.start()
                <= v < cur),
        forall|v: u64|
            area0.start() <= v < cur ==> (#[trigger] pt0.maps(m0, VirtPageNum(v))).is_none(),
        forall|v: u64|
            area0.start() <= v < cur ==> #[trigger] pt1.maps(m1, VirtPageNum(v)) == Some(
                area1.entry(v),
            ),
        fresh_pages(area0, a0, area1, m1, cur),
    ensures
        map_reached(area0, pt0, a0, m0, area1, pt1, a1, m1, cur),
{
    reveal(map_reached);
}

/// One call of `map_one` for the next page either extends what was reached
/// by that page or fails and leaves what was reached as it is.
#[verifier::spinoff_prover]
proof fn lemma_map_step(
    area0: &MapArea,
    pt0: &PageTable,
    a0: &StackFrameAllocator,
    m0: &PhysMemory,
    area1: &MapArea,
    pt1: &PageTable,
    a1: &StackFrameAllocator,
    m1: &PhysMemory,
    area2: &MapArea,
    pt2: &PageTable,
    a2: &StackFrameAllocator,
    m2: &PhysMemory,
    vpn: VirtPageNum,
    r: Result<(), MapError>,
)
    requires
        area0.range().wf(),
        area0.start() <= vpn.0 < area0.end(),
        area0.end() <= crate::address::VPN_LIMIT,
        area1.inv(pt1, m1, a1),
        map_reached(area0, pt0, a0, m0, area1, pt1, a1, m1, vpn.0 as int),
        a1@.free_count() >= a0@.free_count() - frames_bound(
            area0.kind(),
            area0.start(),
            vpn.0 - area0.start(),
        ),
        map_one_post(area1, pt1, a1, m1, area2, pt2, a2, m2, vpn, r),
    ensures
        area2.inv(pt2, m2, a2),
        area2.range() == area0.range(),
        r.is_ok() ==> map_reached(area0, pt0, a0, m0, area2, pt2, a2, m2, vpn.0 + 1),
        r.is_ok() ==> a2@.free_count() >= a0@.free_count() - frames_bound(
            area0.kind(),
            area0.start(),
            vpn.0 + 1 - area0.start(),
        ),
        r matches Err(e) ==> {
            &&& map_reached(area0, pt0, a0, m0, area2, pt2, a2, m2, vpn.0 as int)
            &&& e != MapError::NotMapped
            &&& e == MapError::AlreadyMapped ==> pt0.maps(m0, vpn).is_some()
            &&& e == MapError::OutOfFrames ==> a0@.free_count() < area0.shape().frames()
        },
{
    lemma_map_step_common(area0, pt0, a0, m0, area1, pt1, a1, m1, area2, pt2, a2, m2, vpn, r);
    let next = vpn.0 + 1;
    let here = vpn.0 as int;
    assert(area0.start() < vpn.0 ==> pt1.maps(m1, VirtPageNum((vpn.0 - 1) as u64)).is_some()) by {
        reveal(map_reached);
    }
    assert(area1.kind() == area0.kind() && area0.range().count() == area0.end() - area0.start()) by {
        reveal(map_reached);
    }
    lemma_page_needs(area1, pt1, m1, area0.start(), vpn, area0.end());
    match r {
        Ok(()) => {
            assert(pt2.maps(m2, VirtPageNum(vpn.0)) == Some(area2.entry(vpn.0)));
            assert(pt0.maps(m0, VirtPageNum(vpn.0)).is_none());
            assert forall|v: u64| area0.start() <= v < next implies #[trigger] pt2.maps(
                m2,
                VirtPageNum(v),
            ) == Some(area2.entry(v)) by {
                if v != vpn.0 {
                    assert(area0.start() <= v < vpn.0);
                }
            }
            assert forall|v: u64| area0.start() <= v < next implies (#[trigger] pt0.maps(
                m0,
                VirtPageNum(v),
            )).is_none() by {
                if v != vpn.0 {
                    assert(area0.start() <= v < vpn.0);
                }
            }
            if area0.kind() == MapType::Framed {
                lemma_new_frame_fresh(
                    area0,
                    pt0,
                    a0,
                    m0,
                    area1,
                    pt1,
                    a1,
                    m1,
                    area2.framed()[vpn.0],
                    here,
                );
            }
            lemma_fresh_pages_next(area0, a0, area2, m2, vpn);
            assert forall|v: VirtPageNum|
                v.is_valid() && !(area0.start() <= v.0 < next) implies #[trigger] pt2.maps(m2, v)
                == pt0.maps(m0, v) by {}
            assert forall|v: u64| #[trigger] area2.framed().contains_key(v) implies area0.framed().contains_key(
                v,
            ) || (area0.start() <= v < next) by {}
            lemma_map_reached_intro(area0, pt0, a0, m0, area2, pt2, a2, m2, next);
        },
        Err(e) => {
            if e == MapError::OutOfFrames {
                assert(a0@.free_count() < area0.shape().frames());
            }
            assert forall|v: VirtPageNum|
                v.is_valid() && !(area0.start() <= v.0 < here) implies #[trigger] pt2.maps(m2, v)
                == pt0.maps(m0, v) by {
                if v == vpn {
                    assert(pt2.maps(m2, vpn) == pt1.maps(m1, vpn));
                }
            }
            assert forall|v: u64| #[trigger] area2.framed().contains_key(v) implies area0.framed().contains_key(
                v,
            ) || (area0.start() <= v < here) by {
                if v == vpn.0 {
                    assert(area2.framed() == area1.framed());
                    assert(area1.framed().contains_key(v));
                    assert(pt1.maps(m1, VirtPageNum(v)).is_some());
                    reveal(map_reached);
                }
            }
            assert forall|v: u64| area0.start() <= v < here implies (#[trigger] pt0.maps(
                m0,
                VirtPageNum(v),
            )).is_none() by {}
            assert forall|v: u64| area0.start() <= v < here implies #[trigger] pt2.maps(
                m2,
                VirtPageNum(v),
            ) == Some(area2.entry(v)) by {}
            lemma_map_reached_intro(area0, pt0, a0, m0, area2, pt2, a2, m2, here);
        },
    }
}

/// What [`MapArea::copy_data`] has achieved once it has copied the first `n`
/// bytes of `data`.
#[verifier::opaque]
pub open spec fn copied(
    area: &MapArea,
    m0: &PhysMemory,
    m1: &PhysMemory,
    data: Seq<u8>,
    n: int,
) -> bool {
    &&& forall|i: int|
        0 <= i < n ==> #[trigger] m1.byte(area.frame_at(i / 4096), i % 4096) == data[i]
    &&& forall|k: int, o: int|
        0 <= k < area.range().count() && 0 <= o < 4096 && k * 4096 + o >= n ==> #[trigger] m1.byte(
            area.frame_at(k),
            o,
        ) == m0.byte(area.frame_at(k), o)
    &&& forall|k: int, w: int|
        0 <= k < area.range().count() && 0 <= w < 512 && k * 4096 + w * 8 >= n ==> #[trigger] m1.word(
            area.frame_at(k),
            w,
        ) == m0.word(area.frame_at(k), w)
    &&& forall|p: PhysPageNum|
        m0.contains(p) && !(exists|k: int|
            0 <= k < area.range().count() && #[trigger] area.frame_at(k) == p)
            ==> #[trigger] m1.same_page(m0, p)
}

/// Writing byte `n` of the data to its place extends what was copied by one
/// byte.
#[verifier::spinoff_prover]
proof fn lemma_copied_step(
    area: &MapArea,
    table: &PageTable,
    m0: &PhysMemory,
    m1: &PhysMemory,
    m2: &PhysMemory,
    data: Seq<u8>,
    n: int,
)
    requires
        area.data_ready(table, m0),
        0 <= n < data.len(),
        data.len() <= area.range().count() * 4096,
        m1.same_range(m0),
        m2.same_range(m0),
        copied(area, m0, m1, data, n),
        crate::memory::byte_written(m1, m2, area.frame_at(n / 4096), n % 4096, data[n]),
    ensures
        copied(area, m0, m2, data, n + 1),
{
    reveal(copied);
    reveal(crate::memory::byte_written);
    reveal(MapArea::data_ready);
    let kn = n / 4096;
    let on = n % 4096;
    assert(0 <= kn < area.range().count());
    assert forall|k: int| 0 <= k < area.range().count() implies area.covers(
        (area.start() + k) as u64,
    ) && m0.contains(#[trigger] area.frame_at(k)) by {
        assert(area.covers((area.start() + k) as u64));
    }
    assert forall|k: int, l: int|
        0 <= k < area.range().count() && 0 <= l < area.range().count() && k != l implies area.frame_at(
        k,
    ) != area.frame_at(l) by {
        assert(area.covers((area.start() + k) as u64));
        assert(area.covers((area.start() + l) as u64));
    }
    assert forall|i: int| 0 <= i < n + 1 implies #[trigger] m2.byte(
        area.frame_at(i / 4096),
        i % 4096,
    ) == data[i] by {
        if i < n {
            assert(0 <= i / 4096 < area.range().count());
            assert(i / 4096 != kn || i % 4096 != on);
            assert(m1.byte(area.frame_at(i / 4096), i % 4096) == data[i]);
        }
    }
    assert forall|k: int, o: int|
        0 <= k < area.range().count() && 0 <= o < 4096 && k * 4096 + o >= n + 1 implies #[trigger] m2.byte(
        area.frame_at(k),
        o,
    ) == m0.byte(area.frame_at(k), o) by {
        assert(k != kn || o != on);
        assert(m1.byte(area.frame_at(k), o) == m0.byte(area.frame_at(k), o));
    }
    assert forall|k: int, w: int|
        0 <= k < area.range().count() && 0 <= w < 512 && k * 4096 + w * 8 >= n + 1 implies #[trigger] m2.word(
        area.frame_at(k),
        w,
    ) == m0.word(area.frame_at(k), w) by {
        assert(k != kn || w != on / 8);
        assert(m1.word(area.frame_at(k), w) == m0.word(area.frame_at(k), w));
    }
    assert forall|p: PhysPageNum|
        m0.contains(p) && !(exists|k: int|
            0 <= k < area.range().count() && #[trigger] area.frame_at(k) == p) implies #[trigger] m2.same_page(
        m0,
        p,
    ) by {
        assert(p != area.frame_at(kn));
        assert(m1.same_page(m0, p));
        assert forall|i: int| 0 <= i < 512 implies #[trigger] m2.word(p, i) == m0.word(p, i) by {
            assert(m2.word(p, i) == m1.word(p, i));
        }
    }
}

/// The `k`-th page of an area that is ready to take data is mapped to the
/// area's `k`-th frame, which lies in memory.
#[verifier::spinoff_prover]
proof fn lemma_ready_page(area: &MapArea, table: &PageTable, mem: &PhysMemory, k: int)
    requires
        area.data_ready(table, mem),
        0 <= k < area.range().count(),
    ensures
        mem.wf(),
        table.wf(mem),
        mem.contains(area.frame_at(k)),
        area.start() + k < area.end(),
        table.maps(mem, VirtPageNum((area.start() + k) as u64)) == Some(
            PageTableEntry::spec_new(area.frame_at(k), area.entry_flags()),
        ),
        PageTableEntry::spec_new(area.frame_at(k), area.entry_flags()).spec_ppn() == area.frame_at(
            k,
        ),
{
    reveal(MapArea::data_ready);
    let v = (area.start() + k) as u64;
    assert(area.covers(v));
    crate::page_table::lemma_contained_is_valid(mem, area.framed()[v]);
    crate::page_table::lemma_entry_bits(area.framed()[v].0, area.entry_flags().bits);
}

/// Before the first byte, nothing has been copied.
#[verifier::spinoff_prover]
proof fn lemma_copied_start(area: &MapArea, m0: &PhysMemory, data: Seq<u8>)
    ensures
        copied(area, m0, m0, data, 0),
{
    reveal(copied);
}

/// Whatever has been copied, the area is as ready to take data as before.
#[verifier::spinoff_prover]
proof fn lemma_copied_ready(
    area: &MapArea,
    table: &PageTable,
    m0: &PhysMemory,
    m1: &PhysMemory,
    data: Seq<u8>,
    n: int,
)
    requires
        area.data_ready(table, m0),
        m1.wf(),
        m1.same_range(m0),
        copied(area, m0, m1, data, n),
    ensures
        area.data_ready(table, m1),
{
    reveal(copied);
    reveal(MapArea::data_ready);
    assert forall|p: PhysPageNum| #[trigger] table.frame_list().contains(p) implies m1.same_page(
        m0,
        p,
    ) by {
        assert(table.owns(p));
        if exists|k: int| 0 <= k < area.range().count() && #[trigger] area.frame_at(k) == p {
            let k = choose|k: int| 0 <= k < area.range().count() && #[trigger] area.frame_at(k) == p;
            assert(area.covers((area.start() + k) as u64));
        }
    }
    lemma_tree_same_pages(m0, m1, table.root(), table.frame_list());
    assert forall|v: u64| #[trigger] area.covers(v) implies table.maps(m1, VirtPageNum(v))
        == Some(area.entry(v)) by {
        assert(table.maps(m1, VirtPageNum(v)) == table.maps(m0, VirtPageNum(v)));
    }
}

/// Once all of the data is copied, every byte of it is in its place and
/// every byte that the data did not reach is as it was.
#[verifier::spinoff_prover]
proof fn lemma_copied_done(
    area: &MapArea,
    table: &PageTable,
    m0: &PhysMemory,
    m1: &PhysMemory,
    data: Seq<u8>,
)
    requires
        area.data_ready(table, m0),
        m1.wf(),
        m1.same_range(m0),
        copied(area, m0, m1, data, data.len() as int),
    ensures
        area.data_ready(table, m1),
        forall|i: int|
            0 <= i < data.len() ==> #[trigger] m1.byte(area.frame_at(i / 4096), i % 4096)
                == data[i],
        forall|k: int, o: int|
            0 <= k < area.range().count() && 0 <= o < 4096 && k * 4096 + o >= data.len()
                ==> #[trigger] m1.byte(area.frame_at(k), o) == m0.byte(area.frame_at(k), o),
        forall|p: PhysPageNum|
            m0.contains(p) && !(exists|k: int|
                0 <= k < area.range().count() && #[trigger] area.frame_at(k) == p)
                ==> #[trigger] m1.same_page(m0, p),
{
    lemma_copied_ready(area, table, m0, m1, data, data.len() as int);
    reveal(copied);
}

/// A mapping that failed at page `vpn` and was rolled back has changed
/// neither the area nor any translation.
#[verifier::spinoff_prover]
proof fn lemma_map_rolled_back(
    area0: &MapArea,
    pt0: &PageTable,
    a0: &StackFrameAllocator,
    m0: &PhysMemory,
    area2: &MapArea,
    pt2: &PageTable,
    a2: &StackFrameAllocator,
    m2: &PhysMemory,
    area3: &MapArea,
    pt3: &PageTable,
    a3: &StackFrameAllocator,
    m3: &PhysMemory,
    vpn: VirtPageNum,
    e: MapError,
    undone: Result<(), VirtPageNum>,
)
    requires
        area0.range().wf(),
        area0.start() <= vpn.0 < area0.end(),
        area0.end() <= crate::address::VPN_LIMIT,
        map_reached(area0, pt0, a0, m0, area2, pt2, a2, m2, vpn.0 as int),
        e != MapError::NotMapped,
        e == MapError::AlreadyMapped ==> pt0.maps(m0, vpn).is_some(),
        e == MapError::OutOfFrames ==> a0@.free_count() < area0.shape().frames(),
        match undone {
            Ok(()) => unmap_reached(area2, pt2, a2, m2, area3, pt3, a3, m3, vpn.0 as int),
            Err(at) => {
                &&& area2.start() <= at.0 < vpn.0
                &&& pt2.maps(m2, at).is_none()
                &&& unmap_reached(area2, pt2, a2, m2, area3, pt3, a3, m3, at.0 as int)
            },
        },
    ensures
        map_post(area0, pt0, a0, m0, area3, pt3, a3, m3, Err(e)),
{
    reveal(map_reached);
    reveal(fresh_pages);
    if let Err(at) = undone {
        assert(pt2.maps(m2, VirtPageNum(at.0)).is_some());
    }
    lemma_step_ok_trans(
        a0@,
        m0,
        a2@,
        m2,
        a3@,
        m3,
        pt0.frame_set() + area0.frame_set(),
        pt2.frame_set() + area2.frame_set(),
        pt3.frame_set() + area3.frame_set(),
    );
    assert forall|v: u64| area0.framed().contains_key(v) implies !(area0.start() <= v < vpn.0) by {
        if area0.start() <= v < vpn.0 {
            assert(pt0.maps(m0, VirtPageNum(v)).is_none());
        }
    }
    assert(area3.framed() =~= area0.framed()) by {
        assert forall|v: u64| area3.framed().contains_key(v) <==> area0.framed().contains_key(
            v,
        ) by {
            if area0.framed().contains_key(v) {
                assert(area2.framed().contains_key(v));
            }
            if area3.framed().contains_key(v) {
                assert(area2.framed().contains_key(v));
            }
        }
        assert forall|v: u64| area0.framed().contains_key(v) implies area3.framed()[v]
            == area0.framed()[v] by {
            assert(area2.framed().contains_key(v));
            assert(area3.framed().contains_key(v));
        }
    }
    assert forall|v: VirtPageNum| v.is_valid() implies #[trigger] pt3.maps(m3, v) == pt0.maps(
        m0,
        v,
    ) by {
        if area0.start() <= v.0 < vpn.0 {
            assert(pt3.maps(m3, VirtPageNum(v.0)).is_none());
            assert(pt0.maps(m0, VirtPageNum(v.0)).is_none());
        } else {
            assert(pt3.maps(m3, v) == pt2.maps(m2, v));
            assert(pt2.maps(m2, v) == pt0.maps(m0, v));
        }
    }
    assert forall|v: u64| #[trigger] area0.framed().contains_key(v) implies m3.same_page(
        m0,
        area0.framed()[v],
    ) by {
        let p = area0.framed()[v];
        assert(area2.framed().contains_key(v));
        assert(area3.framed().contains_key(v));
        assert(m3.same_page(m2, area2.framed()[v]));
        assert(m2.same_page(m0, p));
        assert forall|i: int| 0 <= i < 512 implies #[trigger] m3.word(p, i) == m0.word(p, i) by {
            assert(m3.word(p, i) == m2.word(p, i));
        }
    }
    if e == MapError::AlreadyMapped {
        assert(area0.covers(vpn.0));
        assert(pt0.maps(m0, VirtPageNum(vpn.0)).is_some());
    }
}

/// What [`MapArea::copy_data`] does: how the memory `m1` came out of `m0`
/// when `data` was copied into the frames of `area`.
pub open spec fn copy_post(
    area: &MapArea,
    table: &PageTable,
    m0: &PhysMemory,
    m1: &PhysMemory,
    data: Seq<u8>,
) -> bool {
    &&& m1.wf()
    &&& m1.same_range(m0)
    &&& area.data_ready(table, m1)
    &&& forall|i: int|
        0 <= i < data.len() ==> #[trigger] m1.byte(area.frame_at(i / 4096), i % 4096) == data[i]
    &&& forall|k: int, o: int|
        0 <= k < area.range().count() && 0 <= o < 4096 && k * 4096 + o >= data.len()
            ==> #[trigger] m1.byte(area.frame_at(k), o) == m0.byte(area.frame_at(k), o)
    &&& forall|p: PhysPageNum|
        m0.contains(p) && !(exists|k: int|
            0 <= k < area.range().count() && #[trigger] area.frame_at(k) == p)
            ==> #[trigger] m1.same_page(m0, p)
}

/// The byte at position `i` of a new area that was filled with `data`: the
/// byte of the data, or zero past its end or if there was none.
pub open spec fn initial_byte(data: Option<Seq<u8>>, i: int) -> u8 {
    match data {
        Some(d) => if 0 <= i < d.len() {
            d[i]
        } else {
            0u8
        },
        None => 0u8,
    }
}

/// What [`MemorySet::push`] does: how the address space `ms1`, the allocator
/// `a1` and the memory `m1` came out of `ms0`, `a0` and `m0` when an area of
/// the shape `shape` was to be added with the content `data`, and what the
/// call returned.
pub open spec fn push_post(
    ms0: &MemorySet,
    a0: &StackFrameAllocator,
    m0: &PhysMemory,
    ms1: &MemorySet,
    a1: &StackFrameAllocator,
    m1: &PhysMemory,
    shape: AreaShape,
    data: Option<Seq<u8>>,
    r: Result<(), MapError>,
) -> bool {
    &&& ms1.inv(m1, a1)
    &&& ms1.table().root() == ms0.table().root()
    &&& step_ok(a0@, m0, a1@, m1, ms0.frame_set(), ms1.frame_set())
    &&& forall|p: PhysPageNum| #[trigger] ms0.owns(p) ==> ms1.owns(p)
    &&& forall|i: int|
        0 <= i < ms0.area_list().len() ==> #[trigger] ms1.area_list()[i] == ms0.area_list()[i]
    &&& forall|i: int, p: PhysPageNum|
        0 <= i < ms0.area_list().len() && #[trigger] ms0.area_list()[i].owns(p) ==> m1.same_page(
            m0,
            p,
        )
    &&& match r {
        Ok(()) => {
            let added = ms1.area_list().last();
            &&& ms1.area_list().len() == ms0.area_list().len() + 1
            &&& added.shape() == shape
            &&& forall|v: VirtPageNum|
                v.is_valid() && !shape.covers(v.0) ==> #[trigger] ms1.maps(m1, v) == ms0.maps(m0, v)
            &&& forall|v: u64| #[trigger]
                shape.covers(v) ==> ms0.maps(m0, VirtPageNum(v)).is_none()
            &&& shape.kind == MapType::Framed ==> forall|k: int, o: int|
                0 <= k < shape.count() && 0 <= o < 4096 ==> #[trigger] m1.byte(
                    added.frame_at(k),
                    o,
                ) == initial_byte(data, k * 4096 + o)
            &&& shape.kind == MapType::Framed ==> forall|k: int|
                0 <= k < shape.count() ==> !a0.is_allocated(#[trigger] added.frame_at(k))
            &&& a1@.free_count() >= a0@.free_count() - shape.frames()
        },
        Err(e) => {
            &&& ms1.area_list().len() == ms0.area_list().len()
            &&& forall|v: VirtPageNum|
                v.is_valid() ==> #[trigger] ms1.maps(m1, v) == ms0.maps(m0, v)
            &&& e != MapError::NotMapped
            &&& e == MapError::AlreadyMapped ==> exists|v: u64| #[trigger]
                shape.covers(v) && ms0.maps(m0, VirtPageNum(v)).is_some()
            &&& e == MapError::OutOfFrames ==> a0@.free_count() < shape.frames()
        },
    }
}

/// The content of an optional slice of bytes.
pub open spec fn content(data: Option<&[u8]>) -> Option<Seq<u8>> {
    match data {
        Some(d) => Some(d@),
        None => None,
    }
}

/// The shape of the framed area over the pages from the one that holds
/// `start_va` up to the first page boundary at or after `end_va`.
pub open spec fn framed_shape(
    start_va: VirtAddr,
    end_va: VirtAddr,
    permission: MapPermission,
) -> AreaShape {
    AreaShape {
        start: start_va.floor().0 as int,
        end: end_va.ceil().0 as int,
        kind: MapType::Framed,
        perm: permission,
    }
}

/// The number of the trampoline page.
pub open spec fn trampoline_page() -> VirtPageNum {
    VirtPageNum(0x7ff_ffff)
}

/// The frame at the physical address `strampoline`.
pub open spec fn trampoline_frame(strampoline: u64) -> PhysPageNum {
    PhysPageNum((strampoline % crate::address::PA_LIMIT) / 4096)
}

/// The entry that maps the trampoline page to frame `ppn`: valid, readable
/// and executable.
pub open spec fn trampoline_entry(ppn: PhysPageNum) -> PageTableEntry {
    PageTableEntry::spec_new(ppn, PTEFlags { bits: 0x0b })
}

/// What [`MemorySet::map_trampoline`] does: how the address space `ms1`, the
/// allocator `a1` and the memory `m1` came out of `ms0`, `a0` and `m0` when
/// the trampoline page was to be mapped to frame `ppn`, and what the call
/// returned.
pub open spec fn trampoline_post(
    ms0: &MemorySet,
    a0: &StackFrameAllocator,
    m0: &PhysMemory,
    ms1: &MemorySet,
    a1: &StackFrameAllocator,
    m1: &PhysMemory,
    ppn: PhysPageNum,
    r: Result<(), MapError>,
) -> bool {
    &&& ms1.inv(m1, a1)
    &&& ms1.table().root() == ms0.table().root()
    &&& step_ok(a0@, m0, a1@, m1, ms0.frame_set(), ms1.frame_set())
    &&& ms1.area_list() == ms0.area_list()
    &&& forall|i: int, p: PhysPageNum|
        0 <= i < ms0.area_list().len() && #[trigger] ms0.area_list()[i].owns(p) ==> m1.same_page(
            m0,
            p,
        )
    &&& forall|v: VirtPageNum|
        v.is_valid() && v != trampoline_page() ==> #[trigger] ms1.maps(m1, v) == ms0.maps(m0, v)
    &&& match r {
        Ok(()) => {
            &&& ms0.maps(m0, trampoline_page()).is_none()
            &&& ms1.maps(m1, trampoline_page()) == Some(trampoline_entry(ppn))
            &&& a1@.free_count() >= a0@.free_count() - 2
        },
        Err(e) => {
            &&& ms1.maps(m1, trampoline_page()) == ms0.maps(m0, trampoline_page())
            &&& e == MapError::AlreadyMapped <==> ms0.maps(m0, trampoline_page()).is_some()
            &&& e == MapError::OutOfFrames ==> a0@.free_count() < 2
            &&& e != MapError::NotMapped
        },
    }
}

/// A step in which the table of an address space mapped, or tried to map,
/// page `vpn`, which no area covers unless it was mapped already, leaves the
/// address space whole.
#[verifier::spinoff_prover]
proof fn lemma_table_step(
    ms0: &MemorySet,
    a0: &StackFrameAllocator,
    m0: &PhysMemory,
    ms1: &MemorySet,
    a1: &StackFrameAllocator,
    m1: &PhysMemory,
    vpn: VirtPageNum,
)
    requires
        ms0.inv(m0, a0),
        vpn.is_valid(),
        ms1.area_list() == ms0.area_list(),
        ms1.table().inv(m1, a1),
        ms1.table().extends(&ms0.table(), a0, m0, a1, m1),
        forall|v: VirtPageNum|
            !same_indexes(v, vpn) ==> #[trigger] ms1.table().maps(m1, v) == ms0.table().maps(
                m0,
                v,
            ),
        ms0.maps(m0, vpn).is_some() ==> ms1.maps(m1, vpn) == ms0.maps(m0, vpn),
    ensures
        ms1.inv(m1, a1),
        step_ok(a0@, m0, a1@, m1, ms0.frame_set(), ms1.frame_set()),
        forall|i: int, p: PhysPageNum|
            0 <= i < ms0.area_list().len() && #[trigger] ms0.area_list()[i].owns(p)
                ==> m1.same_page(m0, p),
        forall|v: VirtPageNum|
            v.is_valid() && v != vpn ==> #[trigger] ms1.maps(m1, v) == ms0.maps(m0, v),
{
    reveal(MemorySet::whole);
    let pt0 = ms0.table();
    let pt1 = ms1.table();
    let n = ms0.area_list().len() as int;
    let rest = ms0.data_set();
    lemma_extends_step(&pt0, &pt1, a0, m0, a1, m1);
    assert forall|v: VirtPageNum| v.is_valid() && v != vpn implies #[trigger] ms1.maps(m1, v)
        == ms0.maps(m0, v) by {
        if same_indexes(v, vpn) {
            crate::address::lemma_indexes_injective(v, vpn);
        }
    }
    assert forall|p: PhysPageNum| #[trigger] pt1.owns(p) implies pt0.owns(p) || !a0.is_allocated(
        p,
    ) by {}
    assert forall|i: int| 0 <= i < n implies {
        let area = #[trigger] ms0.area_list()[i];
        &&& area.inv(&pt1, m1, a1)
        &&& area.mapped_in(pt1.root(), m1)
        &&& forall|p: PhysPageNum| #[trigger]
            area.owns(p) ==> !pt1.frame_set().contains(p) && m1.same_page(m0, p)
                && a0.is_allocated(p)
    } by {
        let area = ms0.area_list()[i];
        assert(ms0.area_ok(i, m0, a0));
        assert forall|v: u64| #[trigger] area.covers(v) implies pt1.maps(m1, VirtPageNum(v))
            == pt0.maps(m0, VirtPageNum(v)) by {
            assert(VirtPageNum(v).is_valid());
            assert(pt0.maps(m0, VirtPageNum(v)).is_some());
            if VirtPageNum(v) != vpn {
                assert(ms1.maps(m1, VirtPageNum(v)) == ms0.maps(m0, VirtPageNum(v)));
            }
        }
        assert forall|p: PhysPageNum| #[trigger] area.owns(p) implies !pt0.frame_set().contains(
            p,
        ) by {}
        lemma_bystander(&area, &pt0, &pt1, a0, m0, a1, m1, pt0.frame_set(), pt1.frame_set());
    }
    assert forall|p: PhysPageNum| #[trigger] rest.contains(p) implies a0@.is_allocated(p.0)
        && !pt0.frame_set().contains(p) by {
        let i = choose|i: int| 0 <= i < n && #[trigger] ms0.area_list()[i].owns(p);
        assert(ms0.area_ok(i, m0, a0));
        let area = ms0.area_list()[i];
        let v = choose|v: u64| #[trigger] area.framed().contains_key(v) && area.framed()[v] == p;
        assert(a0.is_allocated(p));
    }
    lemma_step_ok_widen(a0@, m0, a1@, m1, pt0.frame_set(), pt1.frame_set(), rest);
    lemma_frame_set_split(ms0);
    lemma_frame_set_split(ms1);
    assert(ms1.data_set() =~= rest);
    assert forall|i: int| 0 <= i < n implies #[trigger] ms1.area_ok(i, m1, a1) by {
        assert(ms0.area_ok(i, m0, a0));
        let area = ms0.area_list()[i];
        assert(area.inv(&pt1, m1, a1));
    }
    assert forall|i: int, j: int| 0 <= i < n && 0 <= j < n && i != j implies #[trigger] areas_apart(
        &ms1.area_list()[i],
        &ms1.area_list()[j],
    ) by {
        assert(areas_apart(&ms0.area_list()[i], &ms0.area_list()[j]));
    }
}

/// The shape of the identically mapped area over the pages from the one
/// that holds address `start` up to the first page boundary at or after
/// `end`.
pub open spec fn identical_shape(start: u64, end: u64, permission: MapPermission) -> AreaShape {
    AreaShape {
        start: (start % crate::address::VA_LIMIT) as int / 4096,
        end: ((end % crate::address::VA_LIMIT) as int + 4095) / 4096,
        kind: MapType::Identical,
        perm: permission,
    }
}

/// Where the sections of the kernel image and the trampoline code lie in
/// physical memory.
pub struct KernelLayout {
    /// Start of the code.
    pub stext: u64,
    /// End of the code.
    pub etext: u64,
    /// Start of the read-only data.
    pub srodata: u64,
    /// End of the read-only data.
    pub erodata: u64,
    /// Start of the data.
    pub sdata: u64,
    /// End of the data.
    pub edata: u64,
    /// Start of the zero-initialised data and the boot stack.
    pub sbss_with_stack: u64,
    /// End of the zero-initialised data.
    pub ebss: u64,
    /// End of the kernel image.
    pub ekernel: u64,
    /// Start of the trampoline code.
    pub strampoline: u64,
}

impl KernelLayout {
    /// Each section ends at or after its start and below the end of the
    /// virtual addresses, the image ends at or before the end of memory, and
    /// the trampoline code starts at a page boundary.
    pub open spec fn wf(&self) -> bool {
        &&& self.stext <= self.etext < crate::address::VA_LIMIT
        &&& self.srodata <= self.erodata < crate::address::VA_LIMIT
        &&& self.sdata <= self.edata < crate::address::VA_LIMIT
        &&& self.sbss_with_stack <= self.ebss < crate::address::VA_LIMIT
        &&& self.ekernel <= crate::config::MEMORY_END
        &&& (self.strampoline % crate::address::PA_LIMIT) % 4096 == 0
    }

    /// The areas of the kernel's address space, in the order in which they
    /// are added.
    pub open spec fn areas(&self) -> Seq<AreaShape> {
        seq![
            identical_shape(self.stext, self.etext, MapPermission { bits: 0x0a }),
            identical_shape(self.srodata, self.erodata, MapPermission { bits: 0x02 }),
            identical_shape(self.sdata, self.edata, MapPermission { bits: 0x06 }),
            identical_shape(self.sbss_with_stack, self.ebss, MapPermission { bits: 0x06 }),
            identical_shape(self.ekernel, crate::config::MEMORY_END, MapPermission { bits: 0x06 }),
        ]
    }
}

/// The most frames that mapping the first `k` of the areas `shapes` takes.
pub open spec fn total_frames(shapes: Seq<AreaShape>, k: int) -> int
    decreases k,
{
    if k <= 0 {
        0
    } else {
        total_frames(shapes, k - 1) + shapes[k - 1].frames()
    }
}

/// Whether one of the first `k` of the areas `shapes` holds page `v`.
pub open spec fn covered(shapes: Seq<AreaShape>, k: int, v: u64) -> bool {
    exists|i: int| 0 <= i < k && (#[trigger] shapes[i]).covers(v)
}

/// Area `k` of `shapes` shares no page with an area before it and does not
/// hold the trampoline page.
pub open spec fn shape_clear(shapes: Seq<AreaShape>, k: int) -> bool {
    &&& !shapes[k].covers(trampoline_page().0)
    &&& forall|v: u64| #[trigger] shapes[k].covers(v) ==> !covered(shapes, k, v)
}

/// No two of the areas `shapes` share a page, and none holds the trampoline
/// page.
pub open spec fn shapes_clear(shapes: Seq<AreaShape>) -> bool {
    forall|k: int| 0 <= k < shapes.len() ==> #[trigger] shape_clear(shapes, k)
}

/// Why the first `n` areas of `shapes` could not all be mapped with `free`
/// frames at hand, as the error `e` says: a page was mapped already only if
/// two of the areas share a page or one holds the trampoline page; the
/// frames ran out only if fewer were free than the areas can take, and
/// three more for the root and the trampoline page.
pub open spec fn mapping_failed(e: MapError, shapes: Seq<AreaShape>, n: int, free: int) -> bool {
    &&& e != MapError::NotMapped
    &&& e == MapError::AlreadyMapped ==> !shapes_clear(shapes)
    &&& e == MapError::OutOfFrames ==> free < 3 + total_frames(shapes, n)
}

/// The address space `ms` was built from nothing: starting with the
/// allocator `a0` and the memory `m0`, the trampoline page was mapped to
/// frame `tramp` and the first `k` areas of `shapes` were added. Every frame
/// that the address space owns was free before, no frame of anyone else was
/// touched, and no page is mapped but the trampoline page and the pages of
/// the areas.
pub open spec fn built(
    a0: &StackFrameAllocator,
    m0: &PhysMemory,
    ms: &MemorySet,
    a1: &StackFrameAllocator,
    m1: &PhysMemory,
    shapes: Seq<AreaShape>,
    k: int,
    tramp: PhysPageNum,
) -> bool {
    &&& ms.inv(m1, a1)
    &&& step_ok(a0@, m0, a1@, m1, Set::empty(), ms.frame_set())
    &&& ms.maps(m1, trampoline_page()) == Some(trampoline_entry(tramp))
    &&& ms.area_list().len() == k
    &&& 0 <= k <= shapes.len()
    &&& forall|i: int| 0 <= i < k ==> (#[trigger] ms.area_list()[i]).shape() == shapes[i]
    &&& forall|v: VirtPageNum|
        v.is_valid() && (#[trigger] ms.maps(m1, v)).is_some() ==> v == trampoline_page()
            || covered(shapes, k, v.0)
    &&& a1@.free_count() >= a0@.free_count() - 3 - total_frames(shapes, k)
}

/// The pages of area `i` of the address space `ms` hold `data` from the
/// first byte of the first page on, and zeros after it.
pub open spec fn filled(ms: &MemorySet, mem: &PhysMemory, i: int, data: Option<Seq<u8>>) -> bool {
    forall|k: int, o: int|
        0 <= k < ms.area_list()[i].range().count() && 0 <= o < 4096 ==> #[trigger] mem.byte(
            ms.area_list()[i].frame_at(k),
            o,
        ) == initial_byte(data, k * 4096 + o)
}

/// The number of pages of the first `k` areas does not shrink as `k` grows.
#[verifier::spinoff_prover]
pub proof fn lemma_total_frames_grows(shapes: Seq<AreaShape>, k: int, n: int)
    requires
        0 <= k <= n,
    ensures
        0 <= total_frames(shapes, k) <= total_frames(shapes, n),
    decreases n,
{
    if n > 0 {
        if k < n {
            lemma_total_frames_grows(shapes, k, n - 1);
        } else {
            lemma_total_frames_grows(shapes, k - 1, n - 1);
        }
    }
}

/// A fresh address space in which the trampoline page was mapped is built,
/// with no area yet. The mapping succeeds if three frames were free at the
/// start.
#[verifier::spinoff_prover]
proof fn lemma_built_start(
    a0: &StackFrameAllocator,
    m0: &PhysMemory,
    ms_bare: &MemorySet,
    a1: &StackFrameAllocator,
    m1: &PhysMemory,
    ms: &MemorySet,
    a2: &StackFrameAllocator,
    m2: &PhysMemory,
    shapes: Seq<AreaShape>,
    tramp: PhysPageNum,
    r: Result<(), MapError>,
)
    requires
        a0.wf(),
        a0.fits(m0),
        others_untouched(a0@, m0, a1@, m1, Set::empty()),
        ms_bare.inv(m1, a1),
        ms_bare.area_list().len() == 0,
        ms_bare.table().frame_list() == seq![ms_bare.table().root()],
        !a0.is_allocated(ms_bare.table().root()),
        forall|p: PhysPageNum| #[trigger]
            a1.is_allocated(p) <==> a0.is_allocated(p) || p == ms_bare.table().root(),
        forall|v: VirtPageNum| #[trigger] ms_bare.maps(m1, v).is_none(),
        a1@.free_count() == a0@.free_count() - 1,
        trampoline_post(ms_bare, a1, m1, ms, a2, m2, tramp, r),
    ensures
        a2.fits(m2),
        others_untouched(a0@, m0, a2@, m2, Set::empty()),
        ms.inv(m2, a2),
        step_ok(a0@, m0, a2@, m2, Set::empty(), ms.frame_set()),
        r.is_ok() ==> built(a0, m0, ms, a2, m2, shapes, 0, tramp),
        r.is_err() ==> r == Err::<(), MapError>(MapError::OutOfFrames) && a0@.free_count() < 3,
{
    reveal(MemorySet::whole);
    let root = ms_bare.table().root();
    assert forall|p: PhysPageNum| ms_bare.owns(p) <==> p == root by {
        if ms_bare.table().owns(p) {
            let i = choose|i: int|
                0 <= i < ms_bare.table().frame_list().len() && ms_bare.table().frame_list()[i]
                    == p;
        }
        if p == root {
            assert(ms_bare.table().frame_list()[0] == root);
        }
    }
    assert(step_ok(a0@, m0, a1@, m1, Set::empty(), ms_bare.frame_set())) by {
        assert forall|p: PhysPageNum| #[trigger]
            a1@.is_allocated(p.0) <==> (a0@.is_allocated(p.0) && !Set::<PhysPageNum>::empty().contains(
                p,
            )) || ms_bare.frame_set().contains(p) by {
            assert(a1.is_allocated(p) <==> a0.is_allocated(p) || p == root);
        }
    }
    lemma_step_ok_trans(
        a0@,
        m0,
        a1@,
        m1,
        a2@,
        m2,
        Set::empty(),
        ms_bare.frame_set(),
        ms.frame_set(),
    );
    assert(ms_bare.maps(m1, trampoline_page()).is_none());
    if r.is_ok() {
        assert forall|v: VirtPageNum|
            v.is_valid() && (#[trigger] ms.maps(m2, v)).is_some() implies v == trampoline_page()
            || covered(shapes, 0, v.0) by {
            if v != trampoline_page() {
                assert(ms.maps(m2, v) == ms_bare.maps(m1, v));
                assert(ms_bare.maps(m1, v).is_none());
            }
        }
    }
}

/// Adding the next area to an address space that is built leaves it built,
/// with one area more. The area is added if it is clear of the areas before
/// it and of the trampoline page, and if as many frames as the areas so
/// far can take, and three more, were free at the start.
#[verifier::spinoff_prover]
proof fn lemma_built_step(
    a0: &StackFrameAllocator,
    m0: &PhysMemory,
    ms1: &MemorySet,
    a1: &StackFrameAllocator,
    m1: &PhysMemory,
    ms2: &MemorySet,
    a2: &StackFrameAllocator,
    m2: &PhysMemory,
    shapes: Seq<AreaShape>,
    k: int,
    tramp: PhysPageNum,
    data: Option<Seq<u8>>,
    r: Result<(), MapError>,
)
    requires
        built(a0, m0, ms1, a1, m1, shapes, k, tramp),
        0 <= k < shapes.len(),
        shapes[k].start <= shapes[k].end <= crate::address::VPN_LIMIT,
        push_post(ms1, a1, m1, ms2, a2, m2, shapes[k], data, r),
    ensures
        a2.fits(m2),
        others_untouched(a0@, m0, a2@, m2, Set::empty()),
        ms2.inv(m2, a2),
        step_ok(a0@, m0, a2@, m2, Set::empty(), ms2.frame_set()),
        r.is_ok() ==> built(a0, m0, ms2, a2, m2, shapes, k + 1, tramp),
        r.is_ok() ==> forall|i: int, d: Option<Seq<u8>>|
            0 <= i < k && shapes[i].kind == MapType::Framed && #[trigger] filled(ms1, m1, i, d)
                ==> filled(ms2, m2, i, d),
        r.is_ok() && shapes[k].kind == MapType::Framed ==> filled(ms2, m2, k, data),
        r.is_err() ==> r != Err::<(), MapError>(MapError::NotMapped),
        r == Err::<(), MapError>(MapError::AlreadyMapped) ==> !shape_clear(shapes, k),
        r == Err::<(), MapError>(MapError::OutOfFrames) ==> a0@.free_count() < 3 + total_frames(
            shapes,
            k + 1,
        ),
        shape_clear(shapes, k) && a0@.free_count() >= 3 + total_frames(shapes, k + 1)
            ==> r.is_ok(),
{
    reveal(MemorySet::whole);
    lemma_step_ok_trans(
        a0@,
        m0,
        a1@,
        m1,
        a2@,
        m2,
        Set::empty(),
        ms1.frame_set(),
        ms2.frame_set(),
    );
    assert(total_frames(shapes, k + 1) == total_frames(shapes, k) + shapes[k].frames());
    match r {
        Ok(()) => {
            let v = trampoline_page();
            assert(v.is_valid());
            if shapes[k].covers(v.0) {
                assert(ms1.maps(m1, VirtPageNum(v.0)).is_none());
            }
            assert(ms2.maps(m2, v) == ms1.maps(m1, v));
            assert forall|i: int| 0 <= i < k + 1 implies (#[trigger] ms2.area_list()[i]).shape()
                == shapes[i] by {
                if i < k {
                    assert(ms2.area_list()[i] == ms1.area_list()[i]);
                }
            }
            assert forall|v: VirtPageNum|
                v.is_valid() && (#[trigger] ms2.maps(m2, v)).is_some() implies v
                == trampoline_page() || covered(shapes, k + 1, v.0) by {
                if shapes[k].covers(v.0) {
                } else {
                    assert(ms2.maps(m2, v) == ms1.maps(m1, v));
                    if v != trampoline_page() {
                        assert(covered(shapes, k, v.0));
                        let i = choose|i: int| 0 <= i < k && (#[trigger] shapes[i]).covers(v.0);
                        assert(shapes[i].covers(v.0));
                    }
                }
            }
            assert forall|i: int, d: Option<Seq<u8>>|
                0 <= i < k && shapes[i].kind == MapType::Framed && #[trigger] filled(
                    ms1,
                    m1,
                    i,
                    d,
                ) implies filled(ms2, m2, i, d) by {
                let area = ms1.area_list()[i];
                assert(ms2.area_list()[i] == area);
                assert(area.shape() == shapes[i]);
                assert(ms1.area_ok(i, m1, a1));
                assert forall|j: int, o: int|
                    0 <= j < area.range().count() && 0 <= o < 4096 implies #[trigger] m2.byte(
                    area.frame_at(j),
                    o,
                ) == initial_byte(d, j * 4096 + o) by {
                    let vv = (area.start() + j) as u64;
                    assert(area.covers(vv));
                    assert(area.framed().contains_key(vv));
                    assert(area.owns(area.frame_at(j)));
                    assert(m2.same_page(m1, area.frame_at(j)));
                    assert(m2.word(area.frame_at(j), o / 8) == m1.word(area.frame_at(j), o / 8));
                    assert(m1.byte(area.frame_at(j), o) == initial_byte(d, j * 4096 + o));
                }
            }
            if shapes[k].kind == MapType::Framed {
                let added = ms2.area_list()[k];
                assert(added == ms2.area_list().last());
                assert(added.range().count() == shapes[k].count());
            }
        },
        Err(e) => {
            if e == MapError::AlreadyMapped {
                let v = choose|v: u64| #[trigger]
                    shapes[k].covers(v) && ms1.maps(m1, VirtPageNum(v)).is_some();
                assert(VirtPageNum(v).is_valid());
                if VirtPageNum(v) != trampoline_page() {
                    assert(covered(shapes, k, v));
                }
            }
        },
    }
}

/// Why the address space of a task cannot be built.
#[derive(Copy, Clone, Debug, PartialEq, Eq, Structural)]
pub enum LoadError {
    /// The file holds no image that can be loaded.
    Image(ImageError),
    /// The loadable segment with this index does not fit: its end lies
    /// before its start or past the end of the addresses, or its bytes lie
    /// outside the file or are more than its pages hold.
    BadSegment(usize),
    /// No room is left above the highest segment for the guard page and the
    /// user stack.
    BadStack,
    /// An area could not be mapped.
    Mapping(MapError),
    /// No room is left below the trampoline page for the kernel stack of
    /// one more task.
    NoKernelStack,
}

/// The permissions of the area of a segment: access in user mode, and what
/// the segment allows.
pub open spec fn segment_perm(seg: SegmentHeader) -> MapPermission {
    MapPermission {
        bits: (16 + if seg.readable {
            2int
        } else {
            0int
        } + if seg.writable {
            4int
        } else {
            0int
        } + if seg.executable {
            8int
        } else {
            0int
        }) as u8,
    }
}

/// The number of the first page of a segment.
pub open spec fn segment_start(seg: SegmentHeader) -> int {
    (seg.virtual_addr % crate::address::VA_LIMIT) as int / 4096
}

/// The number of the page just past the last one of a segment.
pub open spec fn segment_end(seg: SegmentHeader) -> int {
    (((seg.virtual_addr + seg.mem_size) % (crate::address::VA_LIMIT as int)) + 4095) / 4096
}

/// The shape of the area of a segment.
pub open spec fn segment_shape(seg: SegmentHeader) -> AreaShape {
    AreaShape {
        start: segment_start(seg),
        end: segment_end(seg),
        kind: MapType::Framed,
        perm: segment_perm(seg),
    }
}

/// The segment fits: its end is an address, at or after its start, and its
/// bytes lie in a file of `len` bytes and are no more than its pages hold.
pub open spec fn segment_ok(seg: SegmentHeader, len: int) -> bool {
    &&& seg.virtual_addr + seg.mem_size <= u64::MAX
    &&& seg.virtual_addr % crate::address::VA_LIMIT <= (seg.virtual_addr + seg.mem_size) % (
    crate::address::VA_LIMIT as int)
    &&& seg.offset + seg.file_size <= len
    &&& seg.file_size <= (segment_end(seg) - segment_start(seg)) * 4096
}

/// The bytes of a segment in a file that holds `data`.
pub open spec fn segment_bytes(data: Seq<u8>, seg: SegmentHeader) -> Seq<u8> {
    data.subrange(seg.offset as int, seg.offset + seg.file_size)
}

/// The number of the page just past the highest page of the segments; 0 if
/// there is no segment.
pub open spec fn stack_base(segs: Seq<SegmentHeader>) -> int
    decreases segs.len(),
{
    if segs.len() == 0 {
        0
    } else {
        let below = stack_base(segs.drop_last());
        let end = segment_end(segs.last());
        if end > below {
            end
        } else {
            below
        }
    }
}

/// The guard page and the user stack end below the end of the addresses.
pub open spec fn stack_ok(segs: Seq<SegmentHeader>) -> bool {
    (stack_base(segs) + 3) * 4096 < crate::address::VA_LIMIT
}

/// The shape of the area of the user stack: two pages above one guard page.
pub open spec fn stack_shape(segs: Seq<SegmentHeader>) -> AreaShape {
    AreaShape {
        start: stack_base(segs) + 1,
        end: stack_base(segs) + 3,
        kind: MapType::Framed,
        perm: MapPermission { bits: 0x16 },
    }
}

/// The shape of the area of the trap context: the page below the
/// trampoline.
pub open spec fn trap_context_shape() -> AreaShape {
    AreaShape {
        start: 0x7ff_fffe,
        end: 0x7ff_ffff,
        kind: MapType::Framed,
        perm: MapPermission { bits: 0x06 },
    }
}

/// The areas of the address space of a task with the loadable segments
/// `segs`: one for each segment, then the user stack, then the trap
/// context.
pub open spec fn image_shapes(segs: Seq<SegmentHeader>) -> Seq<AreaShape> {
    Seq::new(
        segs.len() + 2,
        |i: int|
            if i < segs.len() {
                segment_shape(segs[i])
            } else if i == segs.len() {
                stack_shape(segs)
            } else {
                trap_context_shape()
            },
    )
}

/// Every segment fits, and so does the user stack.
pub open spec fn image_fits(segs: Seq<SegmentHeader>, len: int) -> bool {
    &&& forall|i: int| 0 <= i < segs.len() ==> #[trigger] segment_ok(segs[i], len)
    &&& stack_ok(segs)
}

/// What [`MemorySet::from_image`] does for an image with the loadable
/// segments `segs` and the entry point `entry` in a file that holds `data`:
/// how the allocator `a1` and the memory `m1` came out of `a0` and `m0`, and
/// what the call returned.
pub open spec fn load_post(
    segs: Seq<SegmentHeader>,
    entry: u64,
    data: Seq<u8>,
    a0: &StackFrameAllocator,
    m0: &PhysMemory,
    a1: &StackFrameAllocator,
    m1: &PhysMemory,
    tramp: PhysPageNum,
    r: Result<(MemorySet, u64, u64), LoadError>,
) -> bool {
    &&& m1.wf()
    &&& a1.wf()
    &&& a1.fits(m1)
    &&& others_untouched(a0@, m0, a1@, m1, Set::empty())
    &&& match r {
        Ok((space, user_sp, entry_point)) => {
            &&& built(a0, m0, &space, a1, m1, image_shapes(segs), (segs.len() + 2) as int, tramp)
            &&& forall|i: int|
                0 <= i < segs.len() ==> #[trigger] filled(
                    &space,
                    m1,
                    i,
                    Some(segment_bytes(data, segs[i])),
                )
            &&& filled(&space, m1, segs.len() as int, None)
            &&& filled(&space, m1, (segs.len() + 1) as int, None)
            &&& image_fits(segs, data.len() as int)
            &&& user_sp == (stack_base(segs) + 3) * 4096
            &&& entry_point == entry
        },
        Err(LoadError::BadSegment(i)) => {
            &&& 0 <= i < segs.len()
            &&& !segment_ok(segs[i as int], data.len() as int)
            &&& forall|j: int| 0 <= j < i ==> #[trigger] segment_ok(segs[j], data.len() as int)
        },
        Err(LoadError::BadStack) => {
            &&& forall|j: int| 0 <= j < segs.len() ==> #[trigger] segment_ok(segs[j], data.len() as int)
            &&& !stack_ok(segs)
        },
        Err(LoadError::Mapping(e)) => mapping_failed(
            e,
            image_shapes(segs),
            (segs.len() + 2) as int,
            a0@.free_count(),
        ),
        Err(LoadError::Image(_)) => false,
        Err(LoadError::NoKernelStack) => false,
    }
    &&& r.is_err() ==> nothing_taken(a0, m0, a1, m1)
    &&& image_fits(segs, data.len() as int) && shapes_clear(image_shapes(segs)) && a0@.free_count()
        >= 3 + total_frames(image_shapes(segs), (segs.len() + 2) as int) ==> r.is_ok()
}

/// What [`MemorySet::from_image`] has achieved once it has added the areas
/// of the first `k` segments.
#[verifier::opaque]
pub open spec fn loaded(
    a0: &StackFrameAllocator,
    m0: &PhysMemory,
    ms: &MemorySet,
    a1: &StackFrameAllocator,
    m1: &PhysMemory,
    segs: Seq<SegmentHeader>,
    data: Seq<u8>,
    k: int,
    tramp: PhysPageNum,
) -> bool {
    &&& built(a0, m0, ms, a1, m1, image_shapes(segs), k, tramp)
    &&& forall|j: int| 0 <= j < k && j < segs.len() ==> #[trigger] segment_ok(segs[j], data.len() as int)
    &&& forall|j: int|
        0 <= j < k && j < segs.len() ==> #[trigger] filled(
            ms,
            m1,
            j,
            Some(segment_bytes(data, segs[j])),
        )
    &&& forall|j: int| segs.len() <= j < k ==> #[trigger] filled(ms, m1, j, None)
    &&& k > segs.len() ==> stack_ok(segs)
}

/// The bits of the permissions of a segment, put together flag by flag.
#[verifier::spinoff_prover]
proof fn lemma_segment_perm()
    ensures
        0x10u8 | 0x02u8 == 0x12u8,
        0x10u8 | 0x04u8 == 0x14u8,
        0x12u8 | 0x04u8 == 0x16u8,
        0x10u8 | 0x08u8 == 0x18u8,
        0x12u8 | 0x08u8 == 0x1au8,
        0x14u8 | 0x08u8 == 0x1cu8,
        0x16u8 | 0x08u8 == 0x1eu8,
{
    assert(0x10u8 | 0x02u8 == 0x12u8 && 0x10u8 | 0x04u8 == 0x14u8 && 0x12u8 | 0x04u8 == 0x16u8
        && 0x10u8 | 0x08u8 == 0x18u8 && 0x12u8 | 0x08u8 == 0x1au8 && 0x14u8 | 0x08u8 == 0x1cu8
        && 0x16u8 | 0x08u8 == 0x1eu8) by (bit_vector);
}

/// Before the first segment, an address space that is built is loaded.
#[verifier::spinoff_prover]
proof fn lemma_loaded_start(
    a0: &StackFrameAllocator,
    m0: &PhysMemory,
    ms: &MemorySet,
    a1: &StackFrameAllocator,
    m1: &PhysMemory,
    segs: Seq<SegmentHeader>,
    data: Seq<u8>,
    tramp: PhysPageNum,
)
    requires
        built(a0, m0, ms, a1, m1, image_shapes(segs), 0, tramp),
    ensures
        loaded(a0, m0, ms, a1, m1, segs, data, 0, tramp),
{
    reveal(loaded);
}

/// An address space that is loaded is whole.
#[verifier::spinoff_prover]
proof fn lemma_loaded_inv(
    a0: &StackFrameAllocator,
    m0: &PhysMemory,
    ms: &MemorySet,
    a1: &StackFrameAllocator,
    m1: &PhysMemory,
    segs: Seq<SegmentHeader>,
    data: Seq<u8>,
    k: int,
    tramp: PhysPageNum,
)
    requires
        loaded(a0, m0, ms, a1, m1, segs, data, k, tramp),
    ensures
        ms.inv(m1, a1),
        ms.area_list().len() == k,
        step_ok(a0@, m0, a1@, m1, Set::empty(), ms.frame_set()),
{
    reveal(loaded);
}

/// The page just past the highest page of the segments has a valid number,
/// and no segment ends above it.
#[verifier::spinoff_prover]
pub proof fn lemma_stack_base(segs: Seq<SegmentHeader>)
    ensures
        0 <= stack_base(segs) <= crate::address::VPN_LIMIT,
        forall|i: int| 0 <= i < segs.len() ==> segment_end(#[trigger] segs[i]) <= stack_base(segs),
    decreases segs.len(),
{
    if segs.len() > 0 {
        let front = segs.drop_last();
        lemma_stack_base(front);
        assert forall|i: int| 0 <= i < segs.len() implies segment_end(#[trigger] segs[i])
            <= stack_base(segs) by {
            if i < segs.len() - 1 {
                assert(front[i] == segs[i]);
            }
        }
    }
}

/// Where loading stops at a segment that does not fit, the segments before
/// it fit and the image does not.
#[verifier::spinoff_prover]
proof fn lemma_loaded_bad(
    a0: &StackFrameAllocator,
    m0: &PhysMemory,
    ms: &MemorySet,
    a1: &StackFrameAllocator,
    m1: &PhysMemory,
    segs: Seq<SegmentHeader>,
    data: Seq<u8>,
    k: int,
    tramp: PhysPageNum,
)
    requires
        loaded(a0, m0, ms, a1, m1, segs, data, k, tramp),
        0 <= k < segs.len(),
        !segment_ok(segs[k], data.len() as int),
    ensures
        forall|j: int| 0 <= j < k ==> #[trigger] segment_ok(segs[j], data.len() as int),
        !image_fits(segs, data.len() as int),
{
    reveal(loaded);
}

/// Where loading stops because the stack does not fit, every segment fits
/// and the image does not.
#[verifier::spinoff_prover]
proof fn lemma_loaded_bad_stack(
    a0: &StackFrameAllocator,
    m0: &PhysMemory,
    ms: &MemorySet,
    a1: &StackFrameAllocator,
    m1: &PhysMemory,
    segs: Seq<SegmentHeader>,
    data: Seq<u8>,
    tramp: PhysPageNum,
)
    requires
        loaded(a0, m0, ms, a1, m1, segs, data, segs.len() as int, tramp),
        !stack_ok(segs),
    ensures
        forall|j: int| 0 <= j < segs.len() ==> #[trigger] segment_ok(segs[j], data.len() as int),
        !image_fits(segs, data.len() as int),
{
    reveal(loaded);
}

/// Adding the area of segment `k` with its bytes extends what is loaded by
/// that segment.
#[verifier::spinoff_prover]
proof fn lemma_loaded_step(
    a0: &StackFrameAllocator,
    m0: &PhysMemory,
    ms1: &MemorySet,
    a1: &StackFrameAllocator,
    m1: &PhysMemory,
    ms2: &MemorySet,
    a2: &StackFrameAllocator,
    m2: &PhysMemory,
    segs: Seq<SegmentHeader>,
    data: Seq<u8>,
    k: int,
    tramp: PhysPageNum,
    r: Result<(), MapError>,
)
    requires
        loaded(a0, m0, ms1, a1, m1, segs, data, k, tramp),
        0 <= k < segs.len(),
        segment_ok(segs[k], data.len() as int),
        push_post(
            ms1,
            a1,
            m1,
            ms2,
            a2,
            m2,
            segment_shape(segs[k]),
            Some(segment_bytes(data, segs[k])),
            r,
        ),
    ensures
        a2.wf(),
        m2.wf(),
        a2.fits(m2),
        others_untouched(a0@, m0, a2@, m2, Set::empty()),
        ms2.inv(m2, a2),
        step_ok(a0@, m0, a2@, m2, Set::empty(), ms2.frame_set()),
        r.is_ok() ==> loaded(a0, m0, ms2, a2, m2, segs, data, k + 1, tramp),
        r.is_err() ==> r != Err::<(), MapError>(MapError::NotMapped),
        r == Err::<(), MapError>(MapError::AlreadyMapped) ==> !shapes_clear(image_shapes(segs)),
        r == Err::<(), MapError>(MapError::OutOfFrames) ==> a0@.free_count() < 3 + total_frames(
            image_shapes(segs),
            (segs.len() + 2) as int,
        ),
        shapes_clear(image_shapes(segs)) && a0@.free_count() >= 3 + total_frames(
            image_shapes(segs),
            (segs.len() + 2) as int,
        ) ==> r.is_ok(),
{
    reveal(loaded);
    let shapes = image_shapes(segs);
    assert(shapes[k] == segment_shape(segs[k]));
    lemma_built_step(
        a0,
        m0,
        ms1,
        a1,
        m1,
        ms2,
        a2,
        m2,
        shapes,
        k,
        tramp,
        Some(segment_bytes(data, segs[k])),
        r,
    );
    lemma_total_frames_grows(shapes, k + 1, (segs.len() + 2) as int);
    if shapes_clear(shapes) {
        assert(shape_clear(shapes, k));
    }
    if r.is_ok() {
        assert forall|j: int| 0 <= j < k + 1 && j < segs.len() implies #[trigger] filled(
            ms2,
            m2,
            j,
            Some(segment_bytes(data, segs[j])),
        ) by {
            if j < k {
                assert(shapes[j] == segment_shape(segs[j]));
                assert(filled(ms1, m1, j, Some(segment_bytes(data, segs[j]))));
            }
        }
    }
}

/// Adding the area of the user stack or of the trap context, which is area
/// `k`, extends what is loaded by that area.
#[verifier::spinoff_prover]
proof fn lemma_loaded_tail(
    a0: &StackFrameAllocator,
    m0: &PhysMemory,
    ms1: &MemorySet,
    a1: &StackFrameAllocator,
    m1: &PhysMemory,
    ms2: &MemorySet,
    a2: &StackFrameAllocator,
    m2: &PhysMemory,
    segs: Seq<SegmentHeader>,
    data: Seq<u8>,
    k: int,
    tramp: PhysPageNum,
    r: Result<(), MapError>,
)
    requires
        loaded(a0, m0, ms1, a1, m1, segs, data, k, tramp),
        segs.len() <= k < segs.len() + 2,
        stack_ok(segs),
        0 <= stack_base(segs),
        push_post(ms1, a1, m1, ms2, a2, m2, image_shapes(segs)[k], None, r),
    ensures
        a2.wf(),
        m2.wf(),
        a2.fits(m2),
        others_untouched(a0@, m0, a2@, m2, Set::empty()),
        ms2.inv(m2, a2),
        step_ok(a0@, m0, a2@, m2, Set::empty(), ms2.frame_set()),
        r.is_ok() ==> loaded(a0, m0, ms2, a2, m2, segs, data, k + 1, tramp),
        r.is_err() ==> r != Err::<(), MapError>(MapError::NotMapped),
        r == Err::<(), MapError>(MapError::AlreadyMapped) ==> !shapes_clear(image_shapes(segs)),
        r == Err::<(), MapError>(MapError::OutOfFrames) ==> a0@.free_count() < 3 + total_frames(
            image_shapes(segs),
            (segs.len() + 2) as int,
        ),
        shapes_clear(image_shapes(segs)) && a0@.free_count() >= 3 + total_frames(
            image_shapes(segs),
            (segs.len() + 2) as int,
        ) ==> r.is_ok(),
{
    reveal(loaded);
    let shapes = image_shapes(segs);
    lemma_built_step(a0, m0, ms1, a1, m1, ms2, a2, m2, shapes, k, tramp, None, r);
    lemma_total_frames_grows(shapes, k + 1, (segs.len() + 2) as int);
    if shapes_clear(shapes) {
        assert(shape_clear(shapes, k));
    }
    if r.is_ok() {
        assert forall|j: int| 0 <= j < k + 1 && j < segs.len() implies #[trigger] filled(
            ms2,
            m2,
            j,
            Some(segment_bytes(data, segs[j])),
        ) by {
            assert(shapes[j] == segment_shape(segs[j]));
            assert(filled(ms1, m1, j, Some(segment_bytes(data, segs[j]))));
        }
        assert forall|j: int| segs.len() <= j < k + 1 implies #[trigger] filled(ms2, m2, j, None) by {
            if j < k {
                assert(filled(ms1, m1, j, None));
            }
        }
    }
}

/// Once the user stack and the trap context are added, the address space of
/// the task is complete.
#[verifier::spinoff_prover]
proof fn lemma_loaded_done(
    a0: &StackFrameAllocator,
    m0: &PhysMemory,
    ms: &MemorySet,
    a1: &StackFrameAllocator,
    m1: &PhysMemory,
    segs: Seq<SegmentHeader>,
    data: Seq<u8>,
    tramp: PhysPageNum,
)
    requires
        loaded(a0, m0, ms, a1, m1, segs, data, (segs.len() + 2) as int, tramp),
    ensures
        built(a0, m0, ms, a1, m1, image_shapes(segs), (segs.len() + 2) as int, tramp),
        forall|i: int|
            0 <= i < segs.len() ==> #[trigger] filled(ms, m1, i, Some(segment_bytes(data, segs[i]))),
        filled(ms, m1, segs.len() as int, None),
        filled(ms, m1, (segs.len() + 1) as int, None),
        image_fits(segs, data.len() as int),
{
    reveal(loaded);
}

/// From the allocator `a0` and the memory `m0` to `a1` and `m1`, no frame was
/// taken for good: the same frames are allocated, with the same content.
pub open spec fn nothing_taken(
    a0: &StackFrameAllocator,
    m0: &PhysMemory,
    a1: &StackFrameAllocator,
    m1: &PhysMemory,
) -> bool {
    &&& m1.wf()
    &&& a1.wf()
    &&& a1.fits(m1)
    &&& forall|q: PhysPageNum| #[trigger] a1.is_allocated(q) <==> a0.is_allocated(q)
    &&& others_untouched(a0@, m0, a1@, m1, Set::empty())
}

/// An address space: a page table and the areas that are mapped in it.
pub struct MemorySet {
    page_table: PageTable,
    areas: Vec<MapArea>,
}

/// The two areas share no page.
pub open spec fn areas_apart(a: &MapArea, b: &MapArea) -> bool {
    a.end() <= a.start() || b.end() <= b.start() || a.end() <= b.start() || b.end() <= a.start()
}

impl MemorySet {
    /// The page table of the address space.
    pub closed spec fn table(&self) -> PageTable {
        self.page_table
    }

    /// The areas of the address space, in the order in which they were
    /// added.
    pub closed spec fn area_list(&self) -> Seq<MapArea> {
        self.areas@
    }

    /// Whether a frame holds a node of the table or a page of an area.
    pub open spec fn owns(&self, p: PhysPageNum) -> bool {
        self.table().owns(p) || exists|i: int|
            0 <= i < self.area_list().len() && #[trigger] self.area_list()[i].owns(p)
    }

    /// The frames that the address space owns.
    pub open spec fn frame_set(&self) -> Set<PhysPageNum> {
        Set::new(|p: PhysPageNum| self.owns(p))
    }

    /// The valid entry that maps `vpn`, if there is one.
    pub open spec fn maps(&self, mem: &PhysMemory, vpn: VirtPageNum) -> Option<PageTableEntry> {
        self.table().maps(mem, vpn)
    }

    /// Area `i` is whole: it lies within the valid page numbers, each of its
    /// pages is mapped as the area says, and its frames are in order.
    pub open spec fn area_ok(
        &self,
        i: int,
        mem: &PhysMemory,
        allocator: &StackFrameAllocator,
    ) -> bool {
        let area = self.area_list()[i];
        &&& area.inv(&self.table(), mem, allocator)
        &&& area.range().wf()
        &&& area.end() <= crate::address::VPN_LIMIT
        &&& area.mapped_in(self.table().root(), mem)
    }

    /// The address space, the memory and the allocator fit together: the
    /// memory and the allocator are well formed, and the address space is
    /// whole.
    pub open spec fn inv(&self, mem: &PhysMemory, allocator: &StackFrameAllocator) -> bool {
        &&& mem.wf()
        &&& allocator.wf()
        &&& allocator.fits(mem)
        &&& self.whole(mem, allocator)
    }

    /// The address space is whole: its table is well formed, every area is
    /// whole, no two areas share a page, and no two areas share a frame.
    #[verifier::opaque]
    pub open spec fn whole(&self, mem: &PhysMemory, allocator: &StackFrameAllocator) -> bool {
        &&& self.table().inv(mem, allocator)
        &&& forall|i: int| 0 <= i < self.area_list().len() ==> #[trigger] self.area_ok(i, mem, allocator)
        &&& forall|i: int, j: int|
            0 <= i < self.area_list().len() && 0 <= j < self.area_list().len() && i != j
                ==> #[trigger] areas_apart(&self.area_list()[i], &self.area_list()[j])
        &&& forall|i: int, j: int, p: PhysPageNum|
            0 <= i < self.area_list().len() && 0 <= j < self.area_list().len() && i != j
                && #[trigger] self.area_list()[i].owns(p) ==> !#[trigger] self.area_list()[j].owns(
                p,
            )
    }

    /// An address space with an empty table and no area; `None` if no frame
    /// is left for the root of the table.
    #[verifier::spinoff_prover]
    pub fn new_bare(allocator: &mut StackFrameAllocator, mem: &mut PhysMemory) -> (r: Option<
        MemorySet,
    >)
        requires
            old(mem).wf(),
            old(allocator).wf(),
            old(allocator).fits(old(mem)),
        ensures
            r.is_some() <==> old(allocator)@.free_count() > 0,
            final(mem).wf(),
            final(allocator).wf(),
            final(allocator).fits(final(mem)),
            others_untouched(
                old(allocator)@,
                old(mem),
                final(allocator)@,
                final(mem),
                Set::empty(),
            ),
            match r {
                Some(space) => {
                    &&& space.inv(final(mem), final(allocator))
                    &&& space.area_list().len() == 0
                    &&& space.table().frame_list() == seq![space.table().root()]
                    &&& !old(allocator).is_allocated(space.table().root())
                    &&& forall|p: PhysPageNum| #[trigger]
                        final(allocator).is_allocated(p) <==> old(allocator).is_allocated(p) || p
                            == space.table().root()
                    &&& forall|v: VirtPageNum| #[trigger] space.maps(final(mem), v).is_none()
                    &&& final(allocator)@.free_count() == old(allocator)@.free_count() - 1
                },
                None => final(allocator)@ == old(allocator)@,
            },
    {
        proof {
            reveal(MemorySet::whole);
        }
        match PageTable::new(allocator, mem) {
            Some(page_table) => Some(MemorySet { page_table, areas: Vec::new() }),
            None => None,
        }
    }

    /// The frames that hold pages of the areas.
    pub open spec fn data_set(&self) -> Set<PhysPageNum> {
        Set::new(
            |p: PhysPageNum|
                exists|i: int|
                    0 <= i < self.area_list().len() && #[trigger] self.area_list()[i].owns(p),
        )
    }

    /// Adds `map_area` to the address space: maps each of its pages and, if
    /// there is `data`, copies it into the frames of the area, from the
    /// first byte of the first page on.
    ///
    /// The area is not added, and no translation changes, if one of its
    /// pages is mapped already or the frames run out.
    #[verifier::spinoff_prover]
    pub fn push(
        &mut self,
        map_area: MapArea,
        data: Option<&[u8]>,
        allocator: &mut StackFrameAllocator,
        mem: &mut PhysMemory,
    ) -> (r: Result<(), MapError>)
        requires
            old(self).inv(old(mem), old(allocator)),
            map_area.framed() == Map::<u64, PhysPageNum>::empty(),
            map_area.range().wf(),
            map_area.end() <= crate::address::VPN_LIMIT,
            data matches Some(d) ==> map_area.kind() == MapType::Framed && d@.len()
                <= map_area.range().count() * 4096,
        ensures
            push_post(
                old(self),
                old(allocator),
                old(mem),
                final(self),
                final(allocator),
                final(mem),
                map_area.shape(),
                content(data),
                r,
            ),
    {
        let ghost ms0 = *self;
        let ghost a0 = *allocator;
        let ghost m0 = *mem;
        let mut map_area = map_area;
        let ghost area_in = map_area;
        proof {
            reveal(MemorySet::whole);
        }
        proof {
            assert(map_area.inv(&self.page_table, mem, allocator)) by {
                assert(map_area.framed().dom() =~= Set::<u64>::empty());
            }
        }
        let mapped = map_area.map(&mut self.page_table, allocator, mem);
        match mapped {
            Err(e) => {
                proof {
                    lemma_push_mapped(&ms0, &a0, &m0, self, allocator, mem, &area_in, &map_area, mapped);
                }
                return Err(e);
            },
            Ok(()) => {},
        }
        let ghost area1 = map_area;
        self.areas.push(map_area);
        let ghost ms1 = *self;
        let ghost m1 = *mem;
        proof {
            lemma_push_mapped(&ms0, &a0, &m0, self, allocator, mem, &area_in, &area1, mapped);
        }
        match data {
            Some(d) => {
                let last = self.areas.len() - 1;
                proof {
                    lemma_inv_data_ready(self, allocator, mem, last as int);
                }
                self.areas[last].copy_data(&self.page_table, d, mem);
                proof {
                    lemma_push_copied(&ms0, &a0, &m0, self, allocator, &m1, mem, &area_in, d@);
                }
            },
            None => {},
        }
        Ok(())
    }

    /// Adds a framed area over the pages from the one that holds `start_va`
    /// up to the first page boundary at or after `end_va`, with zeroed
    /// frames, as [`Self::push`] does.
    #[verifier::spinoff_prover]
    pub fn insert_framed_area(
        &mut self,
        start_va: VirtAddr,
        end_va: VirtAddr,
        permission: MapPermission,
        allocator: &mut StackFrameAllocator,
        mem: &mut PhysMemory,
    ) -> (r: Result<(), MapError>)
        requires
            old(self).inv(old(mem), old(allocator)),
            start_va.0 <= end_va.0,
            end_va.0 <= crate::address::VA_LIMIT,
        ensures
            push_post(
                old(self),
                old(allocator),
                old(mem),
                final(self),
                final(allocator),
                final(mem),
                framed_shape(start_va, end_va, permission),
                None,
                r,
            ),
    {
        let area = MapArea::new(start_va, end_va, MapType::Framed, permission);
        self.push(area, None, allocator, mem)
    }

    /// Maps the trampoline page, the highest page of the address space, to
    /// the frame at the physical address `strampoline`, readable and
    /// executable. The page belongs to no area.
    #[verifier::spinoff_prover]
    pub fn map_trampoline(
        &mut self,
        strampoline: u64,
        allocator: &mut StackFrameAllocator,
        mem: &mut PhysMemory,
    ) -> (r: Result<(), MapError>)
        requires
            old(self).inv(old(mem), old(allocator)),
            (strampoline % crate::address::PA_LIMIT) % 4096 == 0,
        ensures
            trampoline_post(
                old(self),
                old(allocator),
                old(mem),
                final(self),
                final(allocator),
                final(mem),
                trampoline_frame(strampoline),
                r,
            ),
    {
        let ghost ms0 = *self;
        let ghost a0 = *allocator;
        let ghost m0 = *mem;
        proof {
            reveal(MemorySet::whole);
        }
        let va = VirtAddr::from(crate::config::TRAMPOLINE);
        let vpn = VirtPageNum::from_addr(va);
        let pa = crate::address::PhysAddr::from(strampoline);
        let ppn = PhysPageNum::from_addr(pa);
        let flags = PTEFlags::R().union(PTEFlags::X());
        proof {
            crate::page_table::lemma_flag_unions();
        }
        proof {
            crate::page_table::lemma_wf_walkable(&self.page_table, mem);
        }
        if self.page_table.translate(vpn, mem).is_some() {
            proof {
                crate::frame_allocator::lemma_step_ok_refl(a0@, &m0, Set::empty());
                lemma_space_survives(&ms0, &a0, &m0, &a0, &m0, Set::empty());
                assert forall|p: PhysPageNum| #[trigger] ms0.frame_set().contains(p) implies a0@.is_allocated(
                    p.0,
                ) by {
                    assert(ms0.owns(p));
                    assert(a0.is_allocated(p));
                }
                crate::frame_allocator::lemma_step_ok_refl(a0@, &m0, ms0.frame_set());
            }
            return Err(MapError::AlreadyMapped);
        }
        let r = self.page_table.map(vpn, ppn, flags, allocator, mem);
        proof {
            lemma_table_step(&ms0, &a0, &m0, self, allocator, mem, vpn);
        }
        r
    }

    /// Adds an identically mapped area over the pages from the one that
    /// holds address `start` up to the first page boundary at or after
    /// `end`, as [`Self::push`] does.
    #[verifier::spinoff_prover]
    fn push_identical(
        &mut self,
        start: u64,
        end: u64,
        permission: MapPermission,
        allocator: &mut StackFrameAllocator,
        mem: &mut PhysMemory,
    ) -> (r: Result<(), MapError>)
        requires
            old(self).inv(old(mem), old(allocator)),
            start <= end < crate::address::VA_LIMIT,
        ensures
            push_post(
                old(self),
                old(allocator),
                old(mem),
                final(self),
                final(allocator),
                final(mem),
                identical_shape(start, end, permission),
                None,
                r,
            ),
    {
        let area = MapArea::new(
            VirtAddr::from(start),
            VirtAddr::from(end),
            MapType::Identical,
            permission,
        );
        self.push(area, None, allocator, mem)
    }

    /// The address space of the kernel: the trampoline page, then one
    /// identically mapped area for each section of the kernel image, in the
    /// order text, read-only data, data, zero-initialised data with the
    /// boot stack, and one for the rest of physical memory up to its end.
    ///
    /// Fails if a section runs into another one or into the trampoline
    /// page, or if the frames run out; every frame taken until then is given
    /// back.
    #[verifier::spinoff_prover]
    pub fn new_kernel(
        layout: &KernelLayout,
        allocator: &mut StackFrameAllocator,
        mem: &mut PhysMemory,
    ) -> (r: Result<MemorySet, MapError>)
        requires
            old(mem).wf(),
            old(allocator).wf(),
            old(allocator).fits(old(mem)),
            layout.wf(),
        ensures
            final(mem).wf(),
            final(allocator).wf(),
            final(allocator).fits(final(mem)),
            others_untouched(
                old(allocator)@,
                old(mem),
                final(allocator)@,
                final(mem),
                Set::empty(),
            ),
            match r {
                Ok(space) => built(
                    old(allocator),
                    old(mem),
                    &space,
                    final(allocator),
                    final(mem),
                    layout.areas(),
                    5,
                    trampoline_frame(layout.strampoline),
                ),
                Err(e) => {
                    &&& nothing_taken(old(allocator), old(mem), final(allocator), final(mem))
                    &&& mapping_failed(e, layout.areas(), 5, old(allocator)@.free_count())
                },
            },
            shapes_clear(layout.areas()) && old(allocator)@.free_count() >= 3 + total_frames(
                layout.areas(),
                5,
            ) ==> r.is_ok(),
    {
        let ghost a0 = *allocator;
        let ghost m0 = *mem;
        let ghost shapes = layout.areas();
        let ghost tramp = trampoline_frame(layout.strampoline);
        proof {
            lemma_total_frames_grows(shapes, 0, 5);
        }
        let mut memory_set = match Self::new_bare(allocator, mem) {
            Some(space) => space,
            None => {
                return Err(MapError::OutOfFrames);
            },
        };
        let ghost ms_bare = memory_set;
        let ghost a1 = *allocator;
        let ghost m1 = *mem;
        let r = memory_set.map_trampoline(layout.strampoline, allocator, mem);
        proof {
            lemma_built_start(
                &a0,
                &m0,
                &ms_bare,
                &a1,
                &m1,
                &memory_set,
                allocator,
                mem,
                shapes,
                tramp,
                r,
            );
            lemma_total_frames_grows(shapes, 0, 5);
        }
        if let Err(e) = r {
            memory_set.abandon(allocator, mem, Ghost(a0), Ghost(m0));
            return Err(e);
        }
        proof {
            crate::page_table::lemma_flag_unions();
        }
        let ghost ms_k = memory_set;
        let ghost a_k = *allocator;
        let ghost m_k = *mem;
        let r = memory_set.push_identical(
            layout.stext,
            layout.etext,
            MapPermission::R().union(MapPermission::X()),
            allocator,
            mem,
        );
        proof {
            lemma_built_step(
                &a0,
                &m0,
                &ms_k,
                &a_k,
                &m_k,
                &memory_set,
                allocator,
                mem,
                shapes,
                0,
                tramp,
                None,
                r,
            );
            lemma_total_frames_grows(shapes, 1, 5);
        }
        if let Err(e) = r {
            memory_set.abandon(allocator, mem, Ghost(a0), Ghost(m0));
            return Err(e);
        }
        let ghost ms_k = memory_set;
        let ghost a_k = *allocator;
        let ghost m_k = *mem;
        let r = memory_set.push_identical(
            layout.srodata,
            layout.erodata,
            MapPermission::R(),
            allocator,
            mem,
        );
        proof {
            lemma_built_step(
                &a0,
                &m0,
                &ms_k,
                &a_k,
                &m_k,
                &memory_set,
                allocator,
                mem,
                shapes,
                1,
                tramp,
                None,
                r,
            );
            lemma_total_frames_grows(shapes, 2, 5);
        }
        if let Err(e) = r {
            memory_set.abandon(allocator, mem, Ghost(a0), Ghost(m0));
            return Err(e);
        }
        let ghost ms_k = memory_set;
        let ghost a_k = *allocator;
        let ghost m_k = *mem;
        let r = memory_set.push_identical(
            layout.sdata,
            layout.edata,
            MapPermission::R().union(MapPermission::W()),
            allocator,
            mem,
        );
        proof {
            lemma_built_step(
                &a0,
                &m0,
                &ms_k,
                &a_k,
                &m_k,
                &memory_set,
                allocator,
                mem,
                shapes,
                2,
                tramp,
                None,
                r,
            );
            lemma_total_frames_grows(shapes, 3, 5);
        }
        if let Err(e) = r {
            memory_set.abandon(allocator, mem, Ghost(a0), Ghost(m0));
            return Err(e);
        }
        let ghost ms_k = memory_set;
        let ghost a_k = *allocator;
        let ghost m_k = *mem;
        let r = memory_set.push_identical(
            layout.sbss_with_stack,
            layout.ebss,
            MapPermission::R().union(MapPermission::W()),
            allocator,
            mem,
        );
        proof {
            lemma_built_step(
                &a0,
                &m0,
                &ms_k,
                &a_k,
                &m_k,
                &memory_set,
                allocator,
                mem,
                shapes,
                3,
                tramp,
                None,
                r,
            );
            lemma_total_frames_grows(shapes, 4, 5);
        }
        if let Err(e) = r {
            memory_set.abandon(allocator, mem, Ghost(a0), Ghost(m0));
            return Err(e);
        }
        let ghost ms_k = memory_set;
        let ghost a_k = *allocator;
        let ghost m_k = *mem;
        let r = memory_set.push_identical(
            layout.ekernel,
            crate::config::MEMORY_END,
            MapPermission::R().union(MapPermission::W()),
            allocator,
            mem,
        );
        proof {
            lemma_built_step(
                &a0,
                &m0,
                &ms_k,
                &a_k,
                &m_k,
                &memory_set,
                allocator,
                mem,
                shapes,
                4,
                tramp,
                None,
                r,
            );
            lemma_total_frames_grows(shapes, 5, 5);
        }
        if let Err(e) = r {
            memory_set.abandon(allocator, mem, Ghost(a0), Ghost(m0));
            return Err(e);
        }
        Ok(memory_set)
    }

    /// The address space of a task: the trampoline page; a framed area for
    /// each loadable segment of `image`, accessible in user mode with the
    /// permissions of the segment and filled with the segment's bytes from
    /// `elf_data`; after one unmapped guard page above the highest segment, a
    /// framed area of two pages for the user stack; and a framed area for
    /// the trap context in the page below the trampoline.
    ///
    /// Returns the address space, the top of the user stack and the entry
    /// point. Fails if a segment or the stack does not fit, if two areas
    /// run into each other, or if the frames run out; every frame taken
    /// until then is given back.
    #[verifier::spinoff_prover]
    pub fn from_image(
        image: &ProgramImage,
        elf_data: &[u8],
        strampoline: u64,
        allocator: &mut StackFrameAllocator,
        mem: &mut PhysMemory,
    ) -> (r: Result<(MemorySet, u64, u64), LoadError>)
        requires
            old(mem).wf(),
            old(allocator).wf(),
            old(allocator).fits(old(mem)),
            (strampoline % crate::address::PA_LIMIT) % 4096 == 0,
        ensures
            load_post(
                image.segments@,
                image.entry_point,
                elf_data@,
                old(allocator),
                old(mem),
                final(allocator),
                final(mem),
                trampoline_frame(strampoline),
                r,
            ),
    {
        let ghost a0 = *allocator;
        let ghost m0 = *mem;
        let ghost segs = image.segments@;
        let ghost shapes = image_shapes(segs);
        let ghost tramp = trampoline_frame(strampoline);
        let n = image.segments.len();
        proof {
            lemma_total_frames_grows(shapes, 0, n + 2);
        }
        let mut memory_set = match Self::new_bare(allocator, mem) {
            Some(space) => space,
            None => {
                return Err(LoadError::Mapping(MapError::OutOfFrames));
            },
        };
        let ghost ms_bare = memory_set;
        let ghost a1 = *allocator;
        let ghost m1 = *mem;
        let r = memory_set.map_trampoline(strampoline, allocator, mem);
        proof {
            lemma_built_start(
                &a0,
                &m0,
                &ms_bare,
                &a1,
                &m1,
                &memory_set,
                allocator,
                mem,
                shapes,
                tramp,
                r,
            );
        }
        if let Err(e) = r {
            memory_set.abandon(allocator, mem, Ghost(a0), Ghost(m0));
            return Err(LoadError::Mapping(e));
        }
        let mut max_end_vpn = VirtPageNum(0);
        let mut i: usize = 0;
        proof {
            lemma_loaded_start(&a0, &m0, &memory_set, allocator, mem, segs, elf_data@, tramp);
        }
        while i < n
            invariant
                a0 == *old(allocator),
                m0 == *old(mem),
                segs == image.segments@,
                shapes == image_shapes(segs),
                tramp == trampoline_frame(strampoline),
                n == segs.len(),
                i <= n,
                mem.wf(),
                allocator.wf(),
                allocator.fits(mem),
                others_untouched(a0@, &m0, allocator@, mem, Set::empty()),
                loaded(&a0, &m0, &memory_set, allocator, mem, segs, elf_data@, i as int, tramp),
                max_end_vpn.0 == stack_base(segs.take(i as int)),
            decreases n - i,
        {
            let seg = image.segments[i];
            let len = elf_data.len();
            proof {
                lemma_loaded_inv(&a0, &m0, &memory_set, allocator, mem, segs, elf_data@, i as int, tramp);
            }
            if seg.mem_size > u64::MAX - seg.virtual_addr || seg.offset > len as u64
                || seg.file_size > len as u64 - seg.offset {
                proof {
                    lemma_loaded_bad(&a0, &m0, &memory_set, allocator, mem, segs, elf_data@, i as int, tramp);
                }
                memory_set.abandon(allocator, mem, Ghost(a0), Ghost(m0));
                return Err(LoadError::BadSegment(i));
            }
            let start_va = VirtAddr::from(seg.virtual_addr);
            let end_va = VirtAddr::from(seg.virtual_addr + seg.mem_size);
            if start_va.0 > end_va.0 {
                proof {
                    lemma_loaded_bad(&a0, &m0, &memory_set, allocator, mem, segs, elf_data@, i as int, tramp);
                }
                memory_set.abandon(allocator, mem, Ghost(a0), Ghost(m0));
                return Err(LoadError::BadSegment(i));
            }
            let mut map_perm = MapPermission::U();
            if seg.readable {
                map_perm = map_perm.union(MapPermission::R());
            }
            if seg.writable {
                map_perm = map_perm.union(MapPermission::W());
            }
            if seg.executable {
                map_perm = map_perm.union(MapPermission::X());
            }
            proof {
                lemma_segment_perm();
            }
            let map_area = MapArea::new(start_va, end_va, MapType::Framed, map_perm);
            let pages: u64 = map_area.vpn_range.get_end().0 - map_area.vpn_range.get_start().0;
            if seg.file_size > pages * 4096 {
                proof {
                    lemma_loaded_bad(&a0, &m0, &memory_set, allocator, mem, segs, elf_data@, i as int, tramp);
                }
                memory_set.abandon(allocator, mem, Ghost(a0), Ghost(m0));
                return Err(LoadError::BadSegment(i));
            }
            assert(segment_ok(seg, len as int));
            assert(map_area.shape() == segment_shape(seg));
            let end_vpn = map_area.vpn_range.get_end();
            if end_vpn.0 > max_end_vpn.0 {
                max_end_vpn = end_vpn;
            }
            let bytes = vstd::slice::slice_subrange(
                elf_data,
                seg.offset as usize,
                (seg.offset + seg.file_size) as usize,
            );
            let ghost ms_k = memory_set;
            let ghost a_k = *allocator;
            let ghost m_k = *mem;
            let r = memory_set.push(map_area, Some(bytes), allocator, mem);
            proof {
                assert(bytes@ == segment_bytes(elf_data@, seg));
                lemma_loaded_step(
                    &a0,
                    &m0,
                    &ms_k,
                    &a_k,
                    &m_k,
                    &memory_set,
                    allocator,
                    mem,
                    segs,
                    elf_data@,
                    i as int,
                    tramp,
                    r,
                );
                assert(segs.take(i + 1).last() == segs[i as int]);
                assert(segs.take(i + 1).drop_last() == segs.take(i as int));
            }
            if let Err(e) = r {
                memory_set.abandon(allocator, mem, Ghost(a0), Ghost(m0));
                return Err(LoadError::Mapping(e));
            }
            i += 1;
        }
        assert(segs.take(n as int) == segs);
        proof {
            crate::address::lemma_address_bits(max_end_vpn.0);
            lemma_loaded_inv(&a0, &m0, &memory_set, allocator, mem, segs, elf_data@, n as int, tramp);
            lemma_stack_base(segs);
        }
        let max_end_va: VirtAddr = VirtAddr::from(max_end_vpn);
        let mut user_stack_bottom: u64 = max_end_va.0;
        user_stack_bottom += crate::config::PAGE_SIZE;
        let user_stack_top: u64 = user_stack_bottom + crate::config::USER_STACK_SIZE;
        if user_stack_top >= crate::address::VA_LIMIT {
            proof {
                lemma_loaded_bad_stack(&a0, &m0, &memory_set, allocator, mem, segs, elf_data@, tramp);
            }
            memory_set.abandon(allocator, mem, Ghost(a0), Ghost(m0));
            return Err(LoadError::BadStack);
        }
        proof {
            crate::page_table::lemma_flag_unions();
        }
        let stack = MapArea::new(
            VirtAddr::from(user_stack_bottom),
            VirtAddr::from(user_stack_top),
            MapType::Framed,
            MapPermission::R().union(MapPermission::W()).union(MapPermission::U()),
        );
        assert(stack.shape() == stack_shape(segs));
        let ghost ms_k = memory_set;
        let ghost a_k = *allocator;
        let ghost m_k = *mem;
        let r = memory_set.push(stack, None, allocator, mem);
        proof {
            lemma_loaded_tail(
                &a0,
                &m0,
                &ms_k,
                &a_k,
                &m_k,
                &memory_set,
                allocator,
                mem,
                segs,
                elf_data@,
                n as int,
                tramp,
                r,
            );
        }
        if let Err(e) = r {
            memory_set.abandon(allocator, mem, Ghost(a0), Ghost(m0));
            return Err(LoadError::Mapping(e));
        }
        let trap_context = MapArea::new(
            VirtAddr::from(crate::config::TRAP_CONTEXT),
            VirtAddr::from(crate::config::TRAMPOLINE),
            MapType::Framed,
            MapPermission::R().union(MapPermission::W()),
        );
        assert(trap_context.shape() == trap_context_shape());
        let ghost ms_k = memory_set;
        let ghost a_k = *allocator;
        let ghost m_k = *mem;
        let r = memory_set.push(trap_context, None, allocator, mem);
        proof {
            lemma_loaded_tail(
                &a0,
                &m0,
                &ms_k,
                &a_k,
                &m_k,
                &memory_set,
                allocator,
                mem,
                segs,
                elf_data@,
                n + 1,
                tramp,
                r,
            );
        }
        if let Err(e) = r {
            memory_set.abandon(allocator, mem, Ghost(a0), Ghost(m0));
            return Err(LoadError::Mapping(e));
        }
        proof {
            lemma_loaded_done(&a0, &m0, &memory_set, allocator, mem, segs, elf_data@, tramp);
        }
        Ok((memory_set, user_stack_top, image.entry_point))
    }

    /// The address space of the task whose image is the file in `elf_data`,
    /// as [`Self::from_image`] builds it from what [`load_image`] reads of
    /// the file.
    #[verifier::spinoff_prover]
    pub fn from_elf(
        elf_data: &[u8],
        strampoline: u64,
        allocator: &mut StackFrameAllocator,
        mem: &mut PhysMemory,
    ) -> (r: Result<(MemorySet, u64, u64), LoadError>)
        requires
            old(mem).wf(),
            old(allocator).wf(),
            old(allocator).fits(old(mem)),
            (strampoline % crate::address::PA_LIMIT) % 4096 == 0,
        ensures
            match image_of(elf_data@) {
                Ok((entry, segments)) => load_post(
                    segments,
                    entry,
                    elf_data@,
                    old(allocator),
                    old(mem),
                    final(allocator),
                    final(mem),
                    trampoline_frame(strampoline),
                    r,
                ),
                Err(e) => {
                    &&& r matches Err(LoadError::Image(cause)) && cause == e
                    &&& *final(allocator) == *old(allocator)
                    &&& *final(mem) == *old(mem)
                },
            },
    {
        match load_image(elf_data) {
            Ok(image) => Self::from_image(&image, elf_data, strampoline, allocator, mem),
            Err(e) => Err(LoadError::Image(e)),
        }
    }

    /// The number of areas.
    pub fn area_count(&self) -> (n: usize)
        ensures
            n == self.area_list().len(),
    {
        self.areas.len()
    }

    /// The first page of area `i` and the page just past its last one;
    /// `None` if there is no such area.
    pub fn area_bounds(&self, i: usize) -> (r: Option<(VirtPageNum, VirtPageNum)>)
        ensures
            r == if i < self.area_list().len() {
                Some((self.area_list()[i as int].range().start(), self.area_list()[i as int].range().end()))
            } else {
                None
            },
    {
        if i < self.areas.len() {
            Some(self.areas[i].bounds())
        } else {
            None
        }
    }

    /// The frame that holds page `vpn`, if the page lies in a framed area
    /// whose permissions include `need`.
    pub fn frame_of(&self, vpn: VirtPageNum, need: MapPermission) -> (r: Option<PhysPageNum>)
        ensures
            match r {
                Some(p) => exists|i: int|
                    0 <= i < self.area_list().len() && #[trigger] self.area_list()[i].framed().contains_key(
                        vpn.0,
                    ) && self.area_list()[i].framed()[vpn.0] == p && self.area_list()[i].perm().bits
                        & need.bits == need.bits && self.area_list()[i].kind() == MapType::Framed,
                None => forall|i: int|
                    0 <= i < self.area_list().len() ==> !(#[trigger] self.area_list()[i].framed().contains_key(
                        vpn.0,
                    ) && self.area_list()[i].perm().bits & need.bits == need.bits
                        && self.area_list()[i].kind() == MapType::Framed),
            },
    {
        let mut i: usize = 0;
        while i < self.areas.len()
            invariant
                i <= self.area_list().len(),
                forall|j: int|
                    0 <= j < i ==> !(#[trigger] self.area_list()[j].framed().contains_key(vpn.0)
                        && self.area_list()[j].perm().bits & need.bits == need.bits
                        && self.area_list()[j].kind() == MapType::Framed),
            decreases self.area_list().len() - i,
        {
            let area = &self.areas[i];
            let framed = match area.map_type() {
                MapType::Framed => true,
                MapType::Identical => false,
            };
            if framed && area.permission().contains(need) {
                match area.frame_for(vpn) {
                    Some(p) => {
                        return Some(p);
                    },
                    None => {},
                }
            }
            i += 1;
        }
        None
    }

    /// Takes the address space down: unmaps every area, the last one first,
    /// and gives every frame of the areas and of the table back to the
    /// allocator. The address space is no more after that.
    #[verifier::spinoff_prover]
    pub fn release(self, allocator: &mut StackFrameAllocator, mem: &mut PhysMemory)
        requires
            self.inv(old(mem), old(allocator)),
        ensures
            final(mem).wf(),
            final(allocator).wf(),
            final(allocator).fits(final(mem)),
            final(mem).same_range(old(mem)),
            forall|q: PhysPageNum| #[trigger]
                final(allocator).is_allocated(q) <==> old(allocator).is_allocated(q)
                    && !self.owns(q),
            others_untouched(
                old(allocator)@,
                old(mem),
                final(allocator)@,
                final(mem),
                self.frame_set(),
            ),
    {
        let ghost ms0 = self;
        let ghost a0 = *allocator;
        let ghost m0 = *mem;
        let mut page_table = self.page_table;
        let mut areas = self.areas;
        proof {
            lemma_release_start(&ms0, &a0, &m0);
            assert(areas@.take(areas@.len() as int) =~= areas@);
        }
        while areas.len() > 0
            invariant
                ms0.inv(&m0, &a0),
                mem.wf(),
                allocator.wf(),
                allocator.fits(mem),
                mem.same_range(&m0),
                areas@.len() <= ms0.area_list().len(),
                areas@ == ms0.area_list().take(areas@.len() as int),
                releasing(&ms0, &a0, &m0, &page_table, allocator, mem, areas@.len() as int),
            decreases areas@.len(),
        {
            let ghost k = areas@.len() - 1;
            let ghost a1 = *allocator;
            let ghost m1 = *mem;
            let ghost pt1 = page_table;
            let mut area = areas.pop().unwrap();
            let ghost area1 = area;
            proof {
                assert(area1 == ms0.area_list()[k]);
                lemma_release_area(&ms0, &a0, &m0, &pt1, &a1, &m1, k);
            }
            let r = area.unmap(&mut page_table, allocator, mem);
            proof {
                lemma_release_step(
                    &ms0,
                    &a0,
                    &m0,
                    &pt1,
                    &a1,
                    &m1,
                    &area,
                    &page_table,
                    allocator,
                    mem,
                    k,
                    r,
                );
                assert(areas@ =~= ms0.area_list().take(k));
            }
        }
        proof {
            lemma_release_table(&ms0, &a0, &m0, &page_table, allocator, mem);
        }
        let ghost a2 = *allocator;
        page_table.release(allocator);
        proof {
            lemma_release_done(&ms0, &a0, &m0, &page_table, &a2, allocator, mem);
        }
    }

    /// Gives up an address space that was being built from frames that were
    /// free with the allocator `a0`: takes it down, so that every frame
    /// that was taken for it is free again.
    #[verifier::spinoff_prover]
    fn abandon(
        self,
        allocator: &mut StackFrameAllocator,
        mem: &mut PhysMemory,
        Ghost(a0): Ghost<StackFrameAllocator>,
        Ghost(m0): Ghost<PhysMemory>,
    )
        requires
            self.inv(old(mem), old(allocator)),
            step_ok(a0@, &m0, old(allocator)@, old(mem), Set::empty(), self.frame_set()),
        ensures
            nothing_taken(&a0, &m0, final(allocator), final(mem)),
    {
        let ghost a1 = *allocator;
        let ghost m1 = *mem;
        self.release(allocator, mem);
        proof {
            assert forall|q: PhysPageNum| #[trigger]
                allocator.is_allocated(q) <==> a0.is_allocated(q) by {
                assert(a1@.is_allocated(q.0) <==> (a0@.is_allocated(q.0) && !Set::<
                    PhysPageNum,
                >::empty().contains(q)) || self.frame_set().contains(q));
                assert(allocator.is_allocated(q) <==> a1.is_allocated(q) && !self.owns(q));
                if self.owns(q) {
                    assert(self.frame_set().contains(q) && !Set::<PhysPageNum>::empty().contains(
                        q,
                    ));
                }
            }
            assert forall|p: PhysPageNum| a0@.is_allocated(p.0) implies #[trigger] frame_kept(
                allocator@,
                &m0,
                mem,
                p,
            ) by {
                assert(!Set::<PhysPageNum>::empty().contains(p));
                assert(frame_kept(a1@, &m0, &m1, p));
                if self.owns(p) {
                    assert(self.frame_set().contains(p));
                }
                assert(frame_kept(allocator@, &m1, mem, p));
                assert forall|i: int| 0 <= i < 512 implies #[trigger] mem.word(p, i) == m0.word(
                    p,
                    i,
                ) by {
                    assert(mem.word(p, i) == m1.word(p, i));
                }
            }
        }
    }

    /// The address space owns nothing: it has no area, and its table has no
    /// frame.
    pub open spec fn is_hollow(&self) -> bool {
        self.area_list().len() == 0 && self.table().frame_list().len() == 0
    }

    /// What is left of an address space that was taken down: an address
    /// space that owns nothing and maps nothing of its own.
    #[verifier::spinoff_prover]
    pub fn hollow() -> (space: MemorySet)
        ensures
            space.is_hollow(),
    {
        MemorySet { page_table: PageTable::from_token(0), areas: Vec::new() }
    }

    /// The word that names the table of this address space to the hardware.
    #[verifier::spinoff_prover]
    pub fn token(&self) -> (t: u64)
        ensures
            t == self.table().spec_token(),
            self.table().root().is_valid() ==> t == 0x8000_0000_0000_0000 + self.table().root().0,
    {
        self.page_table.token()
    }

    /// Looks up the valid entry that maps `vpn`.
    #[verifier::spinoff_prover]
    pub fn translate(&self, vpn: VirtPageNum, mem: &PhysMemory) -> (r: Option<PageTableEntry>)
        requires
            mem.wf(),
            walkable(mem, self.table().root()),
        ensures
            r == self.maps(mem, vpn),
    {
        self.page_table.translate(vpn, mem)
    }
}

/// An area that was whole before a step by the owner of other frames, which
/// changed none of the translations of the area's pages, is whole after it.
#[verifier::spinoff_prover]
proof fn lemma_bystander(
    area: &MapArea,
    pt0: &PageTable,
    pt1: &PageTable,
    a0: &StackFrameAllocator,
    m0: &PhysMemory,
    a1: &StackFrameAllocator,
    m1: &PhysMemory,
    mine0: Set<PhysPageNum>,
    mine1: Set<PhysPageNum>,
)
    requires
        area.inv(pt0, m0, a0),
        area.mapped_in(pt0.root(), m0),
        area.end() <= crate::address::VPN_LIMIT,
        pt1.inv(m1, a1),
        pt1.root() == pt0.root(),
        step_ok(a0@, m0, a1@, m1, mine0, mine1),
        forall|p: PhysPageNum| #[trigger] area.owns(p) ==> !mine0.contains(p),
        forall|p: PhysPageNum| #[trigger] pt1.owns(p) ==> pt0.owns(p) || !a0.is_allocated(p),
        forall|v: u64| #[trigger]
            area.covers(v) ==> pt1.maps(m1, VirtPageNum(v)) == pt0.maps(m0, VirtPageNum(v)),
    ensures
        area.inv(pt1, m1, a1),
        area.mapped_in(pt1.root(), m1),
        forall|p: PhysPageNum| #[trigger]
            area.owns(p) ==> !mine1.contains(p) && m1.same_page(m0, p) && a0.is_allocated(p),
{
    let f = area.framed();
    assert forall|p: PhysPageNum| #[trigger] area.owns(p) implies !mine1.contains(p)
        && m1.same_page(m0, p) && a0.is_allocated(p) && a1.is_allocated(p) && !pt1.owns(p) by {
        let v = choose|v: u64| #[trigger] f.contains_key(v) && f[v] == p;
        assert(a0.is_allocated(p));
        assert(!mine0.contains(p));
        assert(frame_kept(a1@, m0, m1, p));
        if mine1.contains(p) {
            assert(!a0@.is_allocated(p.0));
        }
        assert(!pt0.owns(p));
    }
    assert forall|v: u64| #[trigger] f.contains_key(v) implies m1.contains(f[v])
        && a1.is_allocated(f[v]) && VirtPageNum(v).is_valid() by {
        assert(area.owns(f[v]));
    }
    assert forall|v: u64| #[trigger] f.contains_key(v) implies translation(
        m1,
        pt1.root(),
        VirtPageNum(v),
    ) == Some(area.entry(v)) by {
        if area.kind() == MapType::Framed {
            assert(area.covers(v));
        } else {
            assert(f.dom().contains(v));
        }
    }
}

/// Two areas of which every page of the one is mapped and no page of the
/// other share no page.
#[verifier::spinoff_prover]
proof fn lemma_apart(a: &MapArea, b: &MapArea, root: PhysPageNum, mem: &PhysMemory)
    requires
        forall|v: u64| #[trigger] a.covers(v) ==> translation(mem, root, VirtPageNum(v)).is_some(),
        forall|v: u64| #[trigger] b.covers(v) ==> translation(mem, root, VirtPageNum(v)).is_none(),
        a.end() <= crate::address::VPN_LIMIT,
        b.end() <= crate::address::VPN_LIMIT,
    ensures
        areas_apart(a, b),
        areas_apart(b, a),
{
    if a.start() < a.end() && b.start() < b.end() && a.end() > b.start() && b.end() > a.start() {
        let v: int = if a.start() >= b.start() {
            a.start()
        } else {
            b.start()
        };
        assert(a.covers(v as u64));
        assert(b.covers(v as u64));
    }
}

/// The frames of an address space are those of its table and those of its
/// areas.
#[verifier::spinoff_prover]
proof fn lemma_frame_set_split(ms: &MemorySet)
    ensures
        ms.frame_set() =~= ms.table().frame_set() + ms.data_set(),
{
}

/// The outcome of mapping a new area in the table of an address space, seen
/// from the address space: on success, with the area added to its list; on
/// failure, with its list as it was.
#[verifier::spinoff_prover]
proof fn lemma_push_mapped(
    ms0: &MemorySet,
    a0: &StackFrameAllocator,
    m0: &PhysMemory,
    ms1: &MemorySet,
    a1: &StackFrameAllocator,
    m1: &PhysMemory,
    area_in: &MapArea,
    area1: &MapArea,
    mapped: Result<(), MapError>,
)
    requires
        ms0.inv(m0, a0),
        area_in.framed() == Map::<u64, PhysPageNum>::empty(),
        area_in.range().wf(),
        area_in.end() <= crate::address::VPN_LIMIT,
        map_post(area_in, &ms0.table(), a0, m0, area1, &ms1.table(), a1, m1, mapped),
        mapped.is_ok() ==> ms1.area_list() == ms0.area_list().push(*area1),
        mapped.is_err() ==> ms1.area_list() == ms0.area_list(),
    ensures
        push_post(ms0, a0, m0, ms1, a1, m1, area_in.shape(), None, mapped),
{
    reveal(MemorySet::whole);
    let pt0 = ms0.table();
    let pt1 = ms1.table();
    let n = ms0.area_list().len() as int;
    let part0 = pt0.frame_set() + area_in.frame_set();
    let part1 = pt1.frame_set() + area1.frame_set();
    let rest = ms0.data_set();
    assert forall|p: PhysPageNum| !area_in.owns(p) by {
        if area_in.owns(p) {
            let v = choose|v: u64| #[trigger]
                area_in.framed().contains_key(v) && area_in.framed()[v] == p;
        }
    }
    assert forall|p: PhysPageNum| #[trigger] pt1.owns(p) implies pt0.owns(p) || !a0.is_allocated(
        p,
    ) by {
        if !pt0.owns(p) {
            assert(part1.contains(p) && !part0.contains(p));
        }
    }
    assert forall|p: PhysPageNum| #[trigger] ms0.owns(p) implies ms1.owns(p) by {
        if pt0.owns(p) {
            assert(pt1.owns(p));
        } else {
            let i = choose|i: int| 0 <= i < n && #[trigger] ms0.area_list()[i].owns(p);
            assert(ms1.area_list()[i] == ms0.area_list()[i]);
            assert(ms1.area_list()[i].owns(p));
        }
    }
    // Every area that was there is still whole.
    assert forall|i: int| 0 <= i < n implies {
        let area = #[trigger] ms0.area_list()[i];
        &&& area.inv(&pt1, m1, a1)
        &&& area.mapped_in(pt1.root(), m1)
        &&& forall|p: PhysPageNum| #[trigger]
            area.owns(p) ==> !part1.contains(p) && m1.same_page(m0, p) && a0.is_allocated(p)
    } by {
        let area = ms0.area_list()[i];
        assert(ms0.area_ok(i, m0, a0));
        assert forall|v: u64| #[trigger] area.covers(v) implies pt1.maps(m1, VirtPageNum(v))
            == pt0.maps(m0, VirtPageNum(v)) by {
            assert(VirtPageNum(v).is_valid());
            if mapped.is_ok() {
                assert(pt0.maps(m0, VirtPageNum(v)).is_some());
                if area_in.covers(v) {
                    assert(pt0.maps(m0, VirtPageNum(v)).is_none());
                }
            }
        }
        assert forall|p: PhysPageNum| #[trigger] area.owns(p) implies !part0.contains(p) by {}
        lemma_bystander(&area, &pt0, &pt1, a0, m0, a1, m1, part0, part1);
    }
    assert forall|p: PhysPageNum| #[trigger] rest.contains(p) implies a0@.is_allocated(p.0)
        && !part0.contains(p) by {
        let i = choose|i: int| 0 <= i < n && #[trigger] ms0.area_list()[i].owns(p);
        assert(ms0.area_ok(i, m0, a0));
        let area = ms0.area_list()[i];
        let v = choose|v: u64| #[trigger] area.framed().contains_key(v) && area.framed()[v] == p;
        assert(a0.is_allocated(p));
    }
    lemma_step_ok_widen(a0@, m0, a1@, m1, part0, part1, rest);
    lemma_frame_set_split(ms0);
    lemma_frame_set_split(ms1);
    assert(ms0.frame_set() =~= part0 + rest);
    match mapped {
        Ok(()) => {
            assert(ms1.area_list().len() == n + 1);
            assert(ms1.area_list()[n] == *area1);
            assert forall|i: int| 0 <= i < n implies #[trigger] ms1.area_list()[i]
                == ms0.area_list()[i] by {}
            assert forall|p: PhysPageNum| area1.owns(p) implies !a0.is_allocated(p) by {
                let v = choose|v: u64| #[trigger]
                    area1.framed().contains_key(v) && area1.framed()[v] == p;
                if area_in.kind() == MapType::Framed {
                    assert(area_in.covers(v));
                } else {
                    assert(area1.framed().dom().contains(v));
                }
            }
            assert(area1.mapped_in(pt1.root(), m1)) by {
                if area1.kind() == MapType::Framed {
                    assert forall|v: u64| #[trigger]
                        area1.framed().contains_key(v) <==> area1.covers(v) by {
                        if area1.covers(v) {
                            assert(area_in.covers(v));
                        }
                    }
                }
                assert forall|v: u64| #[trigger] area1.covers(v) implies translation(
                    m1,
                    pt1.root(),
                    VirtPageNum(v),
                ) == Some(area1.entry(v)) by {
                    assert(area_in.covers(v));
                }
            }
            assert(ms1.data_set() =~= rest + area1.frame_set()) by {
                assert forall|p: PhysPageNum| ms1.data_set().contains(p) <==> (rest
                    + area1.frame_set()).contains(p) by {
                    if ms1.data_set().contains(p) {
                        let i = choose|i: int|
                            0 <= i < n + 1 && #[trigger] ms1.area_list()[i].owns(p);
                        if i < n {
                            assert(ms0.area_list()[i].owns(p));
                        }
                    }
                    if rest.contains(p) {
                        let i = choose|i: int| 0 <= i < n && #[trigger] ms0.area_list()[i].owns(p);
                        assert(ms1.area_list()[i].owns(p));
                    }
                    if area1.owns(p) {
                        assert(ms1.area_list()[n].owns(p));
                    }
                }
            }
            assert(ms1.frame_set() =~= part1 + rest);
            assert forall|i: int| 0 <= i < n + 1 implies #[trigger] ms1.area_ok(i, m1, a1) by {
                if i < n {
                    assert(ms1.area_list()[i] == ms0.area_list()[i]);
                    assert(ms0.area_ok(i, m0, a0));
                }
            }
            assert forall|i: int, j: int|
                0 <= i < n + 1 && 0 <= j < n + 1 && i != j implies #[trigger] areas_apart(
                &ms1.area_list()[i],
                &ms1.area_list()[j],
            ) by {
                if i < n && j < n {
                    assert(areas_apart(&ms0.area_list()[i], &ms0.area_list()[j]));
                } else {
                    let k = if i < n {
                        i
                    } else {
                        j
                    };
                    let area = ms0.area_list()[k];
                    assert(ms0.area_ok(k, m0, a0));
                    assert forall|v: u64| #[trigger] area.covers(v) implies translation(
                        m0,
                        pt0.root(),
                        VirtPageNum(v),
                    ).is_some() by {}
                    assert forall|v: u64| #[trigger] area1.covers(v) implies translation(
                        m0,
                        pt0.root(),
                        VirtPageNum(v),
                    ).is_none() by {
                        assert(area_in.covers(v));
                    }
                    lemma_apart(&area, area1, pt0.root(), m0);
                }
            }
            assert forall|i: int, j: int, p: PhysPageNum|
                0 <= i < n + 1 && 0 <= j < n + 1 && i != j && #[trigger] ms1.area_list()[i].owns(
                    p,
                ) implies !#[trigger] ms1.area_list()[j].owns(p) by {
                if i < n && j < n {
                    assert(ms0.area_list()[i].owns(p));
                } else if i < n {
                    assert(ms0.area_list()[i].owns(p));
                    assert(a0.is_allocated(p));
                } else {
                    if ms0.area_list()[j].owns(p) {
                        assert(a0.is_allocated(p));
                    }
                }
            }
            if area_in.kind() == MapType::Framed {
                assert forall|k: int, o: int|
                    0 <= k < area_in.range().count() && 0 <= o < 4096 implies #[trigger] m1.byte(
                    area1.frame_at(k),
                    o,
                ) == initial_byte(None, k * 4096 + o) by {
                    let v = (area_in.start() + k) as u64;
                    assert(area_in.covers(v));
                    assert(m1.word(area1.framed()[v], o / 8) == 0);
                    crate::memory::lemma_with_byte(0, 0, 0, o % 8);
                }
                assert forall|k: int| 0 <= k < area_in.range().count() implies !a0.is_allocated(
                    #[trigger] area1.frame_at(k),
                ) by {
                    assert(area_in.covers((area_in.start() + k) as u64));
                }
            }
            let shape = area_in.shape();
            assert(ms1.area_list().last().shape() == shape);
            assert forall|v: VirtPageNum|
                v.is_valid() && !shape.covers(v.0) implies #[trigger] ms1.maps(m1, v) == ms0.maps(
                m0,
                v,
            ) by {
                assert(!area_in.covers(v.0));
            }
            assert forall|v: u64| #[trigger] shape.covers(v) implies ms0.maps(
                m0,
                VirtPageNum(v),
            ).is_none() by {
                assert(area_in.covers(v));
            }
        },
        Err(e) => {
            if e == MapError::AlreadyMapped {
                let v = choose|v: u64| #[trigger]
                    area_in.covers(v) && pt0.maps(m0, VirtPageNum(v)).is_some();
                assert(area_in.shape().covers(v));
            }
            assert(area1.frame_set() =~= area_in.frame_set()) by {
                assert forall|p: PhysPageNum| area1.owns(p) == area_in.owns(p) by {
                    if area1.owns(p) {
                        let v = choose|v: u64| #[trigger]
                            area1.framed().contains_key(v) && area1.framed()[v] == p;
                    }
                }
            }
            assert(ms1.data_set() =~= rest);
            assert(ms1.frame_set() =~= part1 + rest);
            assert forall|i: int| 0 <= i < n implies #[trigger] ms1.area_ok(i, m1, a1) by {
                assert(ms0.area_ok(i, m0, a0));
            }
            assert forall|i: int, j: int|
                0 <= i < n && 0 <= j < n && i != j implies #[trigger] areas_apart(
                &ms1.area_list()[i],
                &ms1.area_list()[j],
            ) by {
                assert(areas_apart(&ms0.area_list()[i], &ms0.area_list()[j]));
            }
        },
    }
}

/// Every framed area of a whole address space is ready to take data.
#[verifier::spinoff_prover]
proof fn lemma_inv_data_ready(
    ms: &MemorySet,
    allocator: &StackFrameAllocator,
    mem: &PhysMemory,
    i: int,
)
    requires
        ms.inv(mem, allocator),
        0 <= i < ms.area_list().len(),
        ms.area_list()[i].kind() == MapType::Framed,
    ensures
        ms.area_list()[i].data_ready(&ms.table(), mem),
{
    reveal(MemorySet::whole);
    reveal(MapArea::data_ready);
    let area = ms.area_list()[i];
    assert(ms.area_ok(i, mem, allocator));
    assert forall|v: u64| #[trigger] area.covers(v) implies area.framed().contains_key(v)
        && mem.contains(area.framed()[v]) && !ms.table().owns(area.framed()[v]) && ms.table().maps(
        mem,
        VirtPageNum(v),
    ) == Some(area.entry(v)) by {
        assert(area.framed().contains_key(v));
        assert(area.owns(area.framed()[v]));
    }
}

/// The outcome of copying data into the area that was added last, seen from
/// the address space.
#[verifier::spinoff_prover]
proof fn lemma_push_copied(
    ms0: &MemorySet,
    a0: &StackFrameAllocator,
    m0: &PhysMemory,
    ms1: &MemorySet,
    a1: &StackFrameAllocator,
    m1: &PhysMemory,
    m2: &PhysMemory,
    area_in: &MapArea,
    data: Seq<u8>,
)
    requires
        push_post(ms0, a0, m0, ms1, a1, m1, area_in.shape(), None, Ok(())),
        area_in.kind() == MapType::Framed,
        area_in.range().wf(),
        copy_post(&ms1.area_list().last(), &ms1.table(), m1, m2, data),
    ensures
        push_post(ms0, a0, m0, ms1, a1, m2, area_in.shape(), Some(data), Ok(())),
{
    reveal(MemorySet::whole);
    reveal(MapArea::data_ready);
    let pt = ms1.table();
    let n = ms0.area_list().len() as int;
    let added = ms1.area_list().last();
    assert(added == ms1.area_list()[n]);
    assert(ms1.area_ok(n, m1, a1));
    // A frame is touched only if it is one of the frames of the new area.
    assert forall|p: PhysPageNum| m1.contains(p) && !added.owns(p) implies #[trigger] m2.same_page(
        m1,
        p,
    ) by {
        if exists|k: int| 0 <= k < added.range().count() && #[trigger] added.frame_at(k) == p {
            let k = choose|k: int| 0 <= k < added.range().count() && #[trigger] added.frame_at(k) == p;
            let v = (added.start() + k) as u64;
            assert(added.covers(v));
            assert(added.framed().contains_key(v) && added.framed()[v] == p);
        }
    }
    assert forall|p: PhysPageNum| #[trigger] pt.frame_list().contains(p) implies m2.same_page(
        m1,
        p,
    ) by {
        assert(pt.owns(p));
    }
    lemma_tree_same_pages(m1, m2, pt.root(), pt.frame_list());
    assert forall|i: int| 0 <= i < n + 1 implies #[trigger] ms1.area_ok(i, m2, a1) by {
        assert(ms1.area_ok(i, m1, a1));
        let area = ms1.area_list()[i];
        assert forall|v: u64| #[trigger] area.framed().contains_key(v) implies translation(
            m2,
            pt.root(),
            VirtPageNum(v),
        ) == Some(area.entry(v)) by {
            assert(translation(m2, pt.root(), VirtPageNum(v)) == translation(
                m1,
                pt.root(),
                VirtPageNum(v),
            ));
        }
        assert forall|v: u64| #[trigger] area.covers(v) implies translation(
            m2,
            pt.root(),
            VirtPageNum(v),
        ) == Some(area.entry(v)) by {
            assert(translation(m2, pt.root(), VirtPageNum(v)) == translation(
                m1,
                pt.root(),
                VirtPageNum(v),
            ));
        }
    }
    assert forall|p: PhysPageNum| #[trigger] pt.owns(p) implies a1.is_allocated(p) by {}
    assert forall|p: PhysPageNum| a1@.is_allocated(p.0) && !ms1.frame_set().contains(
        p,
    ) implies #[trigger] frame_kept(a1@, m1, m2, p) by {
        assert(!ms1.area_list()[n].owns(p));
        assert(m1.contains(p));
    }
    assert forall|p: PhysPageNum| #[trigger] ms1.frame_set().contains(p) implies a1@.is_allocated(
        p.0,
    ) by {
        if pt.owns(p) {
            assert(a1.is_allocated(p));
        } else {
            let i = choose|i: int| 0 <= i < n + 1 && #[trigger] ms1.area_list()[i].owns(p);
            assert(ms1.area_ok(i, m1, a1));
            let area = ms1.area_list()[i];
            let v = choose|v: u64| #[trigger]
                area.framed().contains_key(v) && area.framed()[v] == p;
            assert(a1.is_allocated(p));
        }
    }
    lemma_step_ok_trans(
        a0@,
        m0,
        a1@,
        m1,
        a1@,
        m2,
        ms0.frame_set(),
        ms1.frame_set(),
        ms1.frame_set(),
    );
    assert forall|i: int, p: PhysPageNum|
        0 <= i < n && #[trigger] ms0.area_list()[i].owns(p) implies m2.same_page(m0, p) by {
        assert(ms1.area_list()[i] == ms0.area_list()[i]);
        assert(ms1.area_list()[i].owns(p));
        assert(!ms1.area_list()[n].owns(p));
        assert(ms1.area_ok(i, m1, a1));
        let area = ms1.area_list()[i];
        let v = choose|v: u64| #[trigger] area.framed().contains_key(v) && area.framed()[v] == p;
        assert(m1.contains(p));
        assert(m2.same_page(m1, p));
        assert(m1.same_page(m0, p));
        assert forall|j: int| 0 <= j < 512 implies #[trigger] m2.word(p, j) == m0.word(p, j) by {
            assert(m2.word(p, j) == m1.word(p, j));
        }
    }
    assert forall|v: VirtPageNum|
        v.is_valid() && !area_in.covers(v.0) implies #[trigger] ms1.maps(m2, v) == ms0.maps(
        m0,
        v,
    ) by {
        assert(ms1.maps(m2, v) == ms1.maps(m1, v));
    }
    assert forall|k: int, o: int|
        0 <= k < area_in.range().count() && 0 <= o < 4096 implies #[trigger] m2.byte(
        added.frame_at(k),
        o,
    ) == initial_byte(Some(data), k * 4096 + o) by {
        let i = k * 4096 + o;
        if i < data.len() {
            assert(i / 4096 == k && i % 4096 == o);
            assert(m2.byte(added.frame_at(i / 4096), i % 4096) == data[i]);
        } else {
            assert(m2.byte(added.frame_at(k), o) == m1.byte(added.frame_at(k), o));
            assert(m1.byte(added.frame_at(k), o) == initial_byte(None, k * 4096 + o));
        }
    }
}

/// A step by someone who owns none of the frames of an address space leaves
/// the address space whole, with the same translations and the same
/// content in its frames.
#[verifier::spinoff_prover]
pub proof fn lemma_space_survives(
    ms: &MemorySet,
    a0: &StackFrameAllocator,
    m0: &PhysMemory,
    a1: &StackFrameAllocator,
    m1: &PhysMemory,
    mine: Set<PhysPageNum>,
)
    requires
        ms.inv(m0, a0),
        others_untouched(a0@, m0, a1@, m1, mine),
        forall|p: PhysPageNum| #[trigger] ms.owns(p) ==> !mine.contains(p),
        a1.wf(),
        m1.wf(),
    ensures
        ms.inv(m1, a1),
        forall|v: VirtPageNum| #[trigger] ms.maps(m1, v) == ms.maps(m0, v),
        forall|p: PhysPageNum| #[trigger]
            ms.owns(p) ==> m1.same_page(m0, p) && a0.is_allocated(p) && a1.is_allocated(p),
        forall|i: int, d: Option<Seq<u8>>|
            0 <= i < ms.area_list().len() && ms.area_list()[i].kind() == MapType::Framed
                && #[trigger] filled(ms, m0, i, d) ==> filled(ms, m1, i, d),
{
    reveal(MemorySet::whole);
    let table = ms.table();
    let n = ms.area_list().len() as int;
    assert forall|p: PhysPageNum| #[trigger] table.owns(p) implies !mine.contains(p) by {
        assert(ms.owns(p));
    }
    crate::page_table::lemma_table_survives(&table, a0, m0, a1, m1, mine);
    assert forall|i: int| 0 <= i < n implies #[trigger] ms.area_ok(i, m1, a1) by {
        let area = ms.area_list()[i];
        assert(ms.area_ok(i, m0, a0));
        assert forall|p: PhysPageNum| #[trigger] area.owns(p) implies !mine.contains(p) by {
            assert(ms.owns(p));
        }
        lemma_area_kept(&area, &table, a0, m0, a1, m1, mine);
        assert forall|v: u64| #[trigger] area.covers(v) implies translation(
            m1,
            table.root(),
            VirtPageNum(v),
        ) == Some(area.entry(v)) by {
            assert(table.maps(m1, VirtPageNum(v)) == table.maps(m0, VirtPageNum(v)));
        }
    }
    assert forall|p: PhysPageNum| #[trigger] ms.owns(p) implies m1.same_page(m0, p)
        && a0.is_allocated(p) && a1.is_allocated(p) by {
        if table.owns(p) {
            assert(a0.is_allocated(p));
        } else {
            let i = choose|i: int| 0 <= i < n && #[trigger] ms.area_list()[i].owns(p);
            assert(ms.area_ok(i, m0, a0));
            let area = ms.area_list()[i];
            let v = choose|v: u64| #[trigger] area.framed().contains_key(v) && area.framed()[v] == p;
            assert(a0.is_allocated(p));
        }
        assert(!mine.contains(p));
        assert(frame_kept(a1@, m0, m1, p));
    }
    assert forall|i: int, d: Option<Seq<u8>>|
        0 <= i < n && ms.area_list()[i].kind() == MapType::Framed && #[trigger] filled(
            ms,
            m0,
            i,
            d,
        ) implies filled(ms, m1, i, d) by {
        let area = ms.area_list()[i];
        assert(ms.area_ok(i, m0, a0));
        assert forall|j: int, o: int|
            0 <= j < area.range().count() && 0 <= o < 4096 implies #[trigger] m1.byte(
            area.frame_at(j),
            o,
        ) == initial_byte(d, j * 4096 + o) by {
            let vv = (area.start() + j) as u64;
            assert(area.covers(vv));
            assert(area.framed().contains_key(vv));
            assert(area.owns(area.frame_at(j)));
            assert(ms.owns(area.frame_at(j)));
            assert(m1.same_page(m0, area.frame_at(j)));
            assert(m1.word(area.frame_at(j), o / 8) == m0.word(area.frame_at(j), o / 8));
            assert(m0.byte(area.frame_at(j), o) == initial_byte(d, j * 4096 + o));
        }
    }
}

/// Writing to a frame that holds a page of an area leaves the address space
/// whole, with the same translations.
#[verifier::spinoff_prover]
pub proof fn lemma_data_write(
    ms: &MemorySet,
    a: &StackFrameAllocator,
    m0: &PhysMemory,
    m1: &PhysMemory,
    p: PhysPageNum,
)
    requires
        ms.inv(m0, a),
        ms.data_set().contains(p),
        m1.wf(),
        m1.same_range(m0),
        forall|q: PhysPageNum| m0.contains(q) && q != p ==> #[trigger] m1.same_page(m0, q),
    ensures
        ms.inv(m1, a),
        forall|v: VirtPageNum| #[trigger] ms.maps(m1, v) == ms.maps(m0, v),
        forall|i: int, d: Option<Seq<u8>>|
            0 <= i < ms.area_list().len() && ms.area_list()[i].kind() == MapType::Framed
                && !ms.area_list()[i].owns(p) && #[trigger] filled(ms, m0, i, d) ==> filled(
                ms,
                m1,
                i,
                d,
            ),
{
    reveal(MemorySet::whole);
    let table = ms.table();
    let n = ms.area_list().len() as int;
    let k = choose|k: int| 0 <= k < n && #[trigger] ms.area_list()[k].owns(p);
    assert(ms.area_ok(k, m0, a));
    assert(!table.owns(p));
    assert forall|q: PhysPageNum| #[trigger] table.frame_list().contains(q) implies m1.same_page(
        m0,
        q,
    ) by {
        assert(table.owns(q));
    }
    lemma_tree_same_pages(m0, m1, table.root(), table.frame_list());
    assert forall|i: int| 0 <= i < n implies #[trigger] ms.area_ok(i, m1, a) by {
        let area = ms.area_list()[i];
        assert(ms.area_ok(i, m0, a));
        assert forall|v: u64| #[trigger] area.framed().contains_key(v) implies translation(
            m1,
            table.root(),
            VirtPageNum(v),
        ) == Some(area.entry(v)) by {
            assert(table.maps(m1, VirtPageNum(v)) == table.maps(m0, VirtPageNum(v)));
        }
        assert forall|v: u64| #[trigger] area.covers(v) implies translation(
            m1,
            table.root(),
            VirtPageNum(v),
        ) == Some(area.entry(v)) by {
            assert(table.maps(m1, VirtPageNum(v)) == table.maps(m0, VirtPageNum(v)));
        }
    }
    assert forall|i: int, d: Option<Seq<u8>>|
        0 <= i < n && ms.area_list()[i].kind() == MapType::Framed && !ms.area_list()[i].owns(p)
            && #[trigger] filled(ms, m0, i, d) implies filled(ms, m1, i, d) by {
        let area = ms.area_list()[i];
        assert(ms.area_ok(i, m0, a));
        assert forall|j: int, o: int|
            0 <= j < area.range().count() && 0 <= o < 4096 implies #[trigger] m1.byte(
            area.frame_at(j),
            o,
        ) == initial_byte(d, j * 4096 + o) by {
            let vv = (area.start() + j) as u64;
            assert(area.covers(vv));
            assert(area.framed().contains_key(vv));
            assert(area.owns(area.frame_at(j)));
            assert(m1.same_page(m0, area.frame_at(j)));
            assert(m1.word(area.frame_at(j), o / 8) == m0.word(area.frame_at(j), o / 8));
            assert(m0.byte(area.frame_at(j), o) == initial_byte(d, j * 4096 + o));
        }
    }
}

/// The table of a whole address space can be walked.
#[verifier::spinoff_prover]
pub proof fn lemma_space_walkable(ms: &MemorySet, mem: &PhysMemory, a: &StackFrameAllocator)
    requires
        ms.inv(mem, a),
    ensures
        mem.wf(),
        walkable(mem, ms.table().root()),
        ms.table().root().is_valid(),
{
    reveal(MemorySet::whole);
    lemma_wf_walkable(&ms.table(), mem);
    crate::page_table::lemma_contained_is_valid(mem, ms.table().root());
}

/// No two areas of a whole address space share a page.
#[verifier::spinoff_prover]
pub proof fn lemma_areas_do_not_overlap(
    ms: &MemorySet,
    mem: &PhysMemory,
    a: &StackFrameAllocator,
    i: int,
    j: int,
)
    requires
        ms.inv(mem, a),
        0 <= i < ms.area_list().len(),
        0 <= j < ms.area_list().len(),
        i != j,
    ensures
        forall|v: u64| !(ms.area_list()[i].covers(v) && ms.area_list()[j].covers(v)),
{
    reveal(MemorySet::whole);
    assert(areas_apart(&ms.area_list()[i], &ms.area_list()[j]));
}

/// The page of area `i` with the number `v` is mapped to the frame that the
/// area owns for it, with the area's permissions and the valid flag.
#[verifier::spinoff_prover]
pub proof fn lemma_area_page(
    ms: &MemorySet,
    mem: &PhysMemory,
    a: &StackFrameAllocator,
    i: int,
    v: u64,
)
    requires
        ms.inv(mem, a),
        0 <= i < ms.area_list().len(),
        ms.area_list()[i].covers(v),
    ensures
        ms.maps(mem, VirtPageNum(v)) == Some(ms.area_list()[i].entry(v)),
        ms.area_list()[i].kind() == MapType::Framed ==> {
            &&& ms.area_list()[i].framed().contains_key(v)
            &&& ms.data_set().contains(ms.area_list()[i].framed()[v])
            &&& mem.contains(ms.area_list()[i].framed()[v])
            &&& ms.area_list()[i].entry(v).spec_ppn() == ms.area_list()[i].framed()[v]
        },
{
    reveal(MemorySet::whole);
    assert(ms.area_ok(i, mem, a));
    let area = ms.area_list()[i];
    if area.kind() == MapType::Framed {
        assert(area.framed().contains_key(v));
        assert(area.owns(area.framed()[v]));
        crate::page_table::lemma_contained_is_valid(mem, area.framed()[v]);
        crate::page_table::lemma_entry_bits(area.framed()[v].0, area.entry_flags().bits);
    }
}

/// A frame that an area of a whole address space owns for a page lies in
/// memory, is a frame of the address space, and is the frame to which the
/// address space maps the page.
pub proof fn lemma_frame_of(
    ms: &MemorySet,
    mem: &PhysMemory,
    a: &StackFrameAllocator,
    i: int,
    v: u64,
)
    requires
        ms.inv(mem, a),
        0 <= i < ms.area_list().len(),
        ms.area_list()[i].framed().contains_key(v),
    ensures
        mem.contains(ms.area_list()[i].framed()[v]),
        ms.data_set().contains(ms.area_list()[i].framed()[v]),
        ms.owns(ms.area_list()[i].framed()[v]),
        ms.maps(mem, VirtPageNum(v)) == Some(ms.area_list()[i].entry(v)),
        ms.area_list()[i].entry(v).spec_ppn() == ms.area_list()[i].framed()[v],
{
    reveal(MemorySet::whole);
    assert(ms.area_ok(i, mem, a));
    let area = ms.area_list()[i];
    assert(area.owns(area.framed()[v]));
    crate::page_table::lemma_contained_is_valid(mem, area.framed()[v]);
    crate::page_table::lemma_entry_bits(area.framed()[v].0, area.entry_flags().bits);
}

/// No two areas of a whole address space own the same frame.
pub proof fn lemma_areas_share_no_frame(
    ms: &MemorySet,
    mem: &PhysMemory,
    a: &StackFrameAllocator,
    i: int,
    j: int,
    p: PhysPageNum,
)
    requires
        ms.inv(mem, a),
        0 <= i < ms.area_list().len(),
        0 <= j < ms.area_list().len(),
        i != j,
        ms.area_list()[i].owns(p),
    ensures
        !ms.area_list()[j].owns(p),
{
    reveal(MemorySet::whole);
}

/// What [`MemorySet::release`] has achieved once it has taken down every
/// area of `ms0` but the first `k`: the table `table`, the allocator `a1`
/// and the memory `m1` hold what is left of the address space `ms0`, which
/// was whole with the allocator `a0` and the memory `m0`.
#[verifier::opaque]
pub open spec fn releasing(
    ms0: &MemorySet,
    a0: &StackFrameAllocator,
    m0: &PhysMemory,
    table: &PageTable,
    a1: &StackFrameAllocator,
    m1: &PhysMemory,
    k: int,
) -> bool {
    &&& 0 <= k <= ms0.area_list().len()
    &&& *table == ms0.table()
    &&& table.inv(m1, a1)
    &&& a1@.start == a0@.start
    &&& a1@.end == a0@.end
    &&& forall|i: int|
        0 <= i < k ==> {
            let area = #[trigger] ms0.area_list()[i];
            &&& area.inv(table, m1, a1)
            &&& area.mapped_in(table.root(), m1)
        }
    &&& forall|q: PhysPageNum| #[trigger]
        a1.is_allocated(q) <==> a0.is_allocated(q) && !(exists|i: int|
            k <= i < ms0.area_list().len() && #[trigger] ms0.area_list()[i].owns(q))
    &&& others_untouched(a0@, m0, a1@, m1, ms0.frame_set())
}

/// Before an area is taken down, everything is there.
#[verifier::spinoff_prover]
proof fn lemma_release_start(ms0: &MemorySet, a0: &StackFrameAllocator, m0: &PhysMemory)
    requires
        ms0.inv(m0, a0),
    ensures
        releasing(ms0, a0, m0, &ms0.table(), a0, m0, ms0.area_list().len() as int),
{
    reveal(releasing);
    reveal(MemorySet::whole);
    assert forall|i: int| 0 <= i < ms0.area_list().len() implies {
        let area = #[trigger] ms0.area_list()[i];
        &&& area.inv(&ms0.table(), m0, a0)
        &&& area.mapped_in(ms0.table().root(), m0)
    } by {
        assert(ms0.area_ok(i, m0, a0));
    }
    assert forall|p: PhysPageNum|
        a0@.is_allocated(p.0) && !ms0.frame_set().contains(p) implies #[trigger] frame_kept(
        a0@,
        m0,
        m0,
        p,
    ) by {}
}

/// The area that is taken down next is whole.
#[verifier::spinoff_prover]
proof fn lemma_release_area(
    ms0: &MemorySet,
    a0: &StackFrameAllocator,
    m0: &PhysMemory,
    table: &PageTable,
    a1: &StackFrameAllocator,
    m1: &PhysMemory,
    k: int,
)
    requires
        ms0.inv(m0, a0),
        0 <= k < ms0.area_list().len(),
        releasing(ms0, a0, m0, table, a1, m1, k + 1),
    ensures
        ms0.area_list()[k].inv(table, m1, a1),
        ms0.area_list()[k].range().wf(),
        ms0.area_list()[k].end() <= crate::address::VPN_LIMIT,
{
    reveal(releasing);
    reveal(MemorySet::whole);
    assert(ms0.area_ok(k, m0, a0));
    let area = ms0.area_list()[k];
    assert(area.inv(table, m1, a1));
}

/// Taking area `k` down leaves what was there before it as it was.
#[verifier::spinoff_prover]
proof fn lemma_release_step(
    ms0: &MemorySet,
    a0: &StackFrameAllocator,
    m0: &PhysMemory,
    pt1: &PageTable,
    a1: &StackFrameAllocator,
    m1: &PhysMemory,
    area2: &MapArea,
    pt2: &PageTable,
    a2: &StackFrameAllocator,
    m2: &PhysMemory,
    k: int,
    r: Result<(), VirtPageNum>,
)
    requires
        ms0.inv(m0, a0),
        0 <= k < ms0.area_list().len(),
        releasing(ms0, a0, m0, pt1, a1, m1, k + 1),
        match r {
            Ok(()) => unmap_reached(
                &ms0.area_list()[k],
                pt1,
                a1,
                m1,
                area2,
                pt2,
                a2,
                m2,
                ms0.area_list()[k].end(),
            ),
            Err(at) => {
                &&& ms0.area_list()[k].covers(at.0)
                &&& pt1.maps(m1, at).is_none()
                &&& unmap_reached(&ms0.area_list()[k], pt1, a1, m1, area2, pt2, a2, m2, at.0 as int)
            },
        },
    ensures
        m2.wf(),
        a2.wf(),
        a2.fits(m2),
        m2.same_range(m0),
        releasing(ms0, a0, m0, pt2, a2, m2, k),
{
    reveal(releasing);
    reveal(MemorySet::whole);
    let area = ms0.area_list()[k];
    let n = ms0.area_list().len() as int;
    assert(ms0.area_ok(k, m0, a0));
    if let Err(at) = r {
        assert(area.mapped_in(pt1.root(), m1));
        assert(pt1.maps(m1, VirtPageNum(at.0)).is_some());
    }
    let mine0 = pt1.frame_set() + area.frame_set();
    let mine1 = pt2.frame_set() + area2.frame_set();
    // The area owns nothing any more.
    assert forall|p: PhysPageNum| !area2.owns(p) by {
        if area2.owns(p) {
            let v = choose|v: u64| #[trigger]
                area2.framed().contains_key(v) && area2.framed()[v] == p;
            assert(area.framed().contains_key(v));
            if area.kind() == MapType::Framed {
                assert(area.covers(v));
            } else {
                assert(area.framed().dom().contains(v));
            }
        }
    }
    assert forall|i: int| 0 <= i < k implies {
        let other = #[trigger] ms0.area_list()[i];
        &&& other.inv(pt2, m2, a2)
        &&& other.mapped_in(pt2.root(), m2)
    } by {
        let other = ms0.area_list()[i];
        assert(ms0.area_ok(i, m0, a0));
        assert(areas_apart(&other, &area));
        assert forall|p: PhysPageNum| #[trigger] other.owns(p) implies !mine0.contains(p) by {
            assert(!area.owns(p));
        }
        assert forall|v: u64| #[trigger] other.covers(v) implies pt2.maps(m2, VirtPageNum(v))
            == pt1.maps(m1, VirtPageNum(v)) by {
            assert(VirtPageNum(v).is_valid());
            assert(!area.covers(v));
        }
        lemma_bystander(&other, pt1, pt2, a1, m1, a2, m2, mine0, mine1);
    }
    assert forall|q: PhysPageNum| #[trigger]
        a2.is_allocated(q) <==> a0.is_allocated(q) && !(exists|i: int|
            k <= i < n && #[trigger] ms0.area_list()[i].owns(q)) by {
        assert(a2@.is_allocated(q.0) <==> (a1@.is_allocated(q.0) && !mine0.contains(q))
            || mine1.contains(q));
        assert(a1.is_allocated(q) <==> a0.is_allocated(q) && !(exists|i: int|
            k + 1 <= i < n && #[trigger] ms0.area_list()[i].owns(q)));
        if pt1.owns(q) {
            assert(a1.is_allocated(q));
            assert forall|i: int| k <= i < n implies !(#[trigger] ms0.area_list()[i].owns(q)) by {
                assert(ms0.area_ok(i, m0, a0));
            }
        }
        if exists|i: int| k <= i < n && #[trigger] ms0.area_list()[i].owns(q) {
            let i = choose|i: int| k <= i < n && #[trigger] ms0.area_list()[i].owns(q);
            if i > k {
                assert(k + 1 <= i < n && ms0.area_list()[i].owns(q));
            }
        }
        if exists|i: int| k + 1 <= i < n && #[trigger] ms0.area_list()[i].owns(q) {
            let i = choose|i: int| k + 1 <= i < n && #[trigger] ms0.area_list()[i].owns(q);
            assert(k <= i < n && ms0.area_list()[i].owns(q));
        }
    }
    assert forall|p: PhysPageNum| mine0.contains(p) implies ms0.frame_set().contains(p)
        || !a0@.is_allocated(p.0) by {
        if area.owns(p) {
            assert(ms0.area_list()[k].owns(p));
        }
    }
    crate::frame_allocator::lemma_others_untouched_trans(
        a0@,
        m0,
        a1@,
        m1,
        a2@,
        m2,
        ms0.frame_set(),
        mine0,
    );
}

/// Once every area is taken down, the table is left, with its frames
/// allocated.
#[verifier::spinoff_prover]
proof fn lemma_release_table(
    ms0: &MemorySet,
    a0: &StackFrameAllocator,
    m0: &PhysMemory,
    table: &PageTable,
    a1: &StackFrameAllocator,
    m1: &PhysMemory,
)
    requires
        releasing(ms0, a0, m0, table, a1, m1, 0),
    ensures
        a1.wf(),
        table.allocated_in(a1),
        table.frame_list().no_duplicates(),
{
    reveal(releasing);
}

/// Once the frames of the table are given back, every frame of the address
/// space is free, and no other frame was touched.
#[verifier::spinoff_prover]
proof fn lemma_release_done(
    ms0: &MemorySet,
    a0: &StackFrameAllocator,
    m0: &PhysMemory,
    table: &PageTable,
    a1: &StackFrameAllocator,
    a2: &StackFrameAllocator,
    m1: &PhysMemory,
)
    requires
        ms0.inv(m0, a0),
        releasing(ms0, a0, m0, table, a1, m1, 0),
        a1.fits(m1),
        a2.wf(),
        a2@.start == a1@.start,
        a2@.end == a1@.end,
        forall|q: PhysPageNum| #[trigger]
            a2.is_allocated(q) <==> a1.is_allocated(q) && !table.owns(q),
    ensures
        a2.fits(m1),
        forall|q: PhysPageNum| #[trigger]
            a2.is_allocated(q) <==> a0.is_allocated(q) && !ms0.owns(q),
        others_untouched(a0@, m0, a2@, m1, ms0.frame_set()),
{
    reveal(releasing);
    reveal(MemorySet::whole);
    let n = ms0.area_list().len() as int;
    assert forall|q: PhysPageNum| #[trigger]
        a2.is_allocated(q) <==> a0.is_allocated(q) && !ms0.owns(q) by {
        assert(a2.is_allocated(q) <==> a1.is_allocated(q) && !table.owns(q));
        assert(a1.is_allocated(q) <==> a0.is_allocated(q) && !(exists|i: int|
            0 <= i < n && #[trigger] ms0.area_list()[i].owns(q)));
    }
    assert forall|p: PhysPageNum|
        a0@.is_allocated(p.0) && !ms0.frame_set().contains(p) implies #[trigger] frame_kept(
        a2@,
        m0,
        m1,
        p,
    ) by {
        assert(frame_kept(a1@, m0, m1, p));
        assert(!ms0.owns(p));
        assert(a2.is_allocated(p));
    }
}

/// An address space that is hollow owns no frame.
pub proof fn lemma_hollow_owns_nothing(ms: &MemorySet, p: PhysPageNum)
    requires
        ms.is_hollow(),
    ensures
        !ms.owns(p),
        !ms.data_set().contains(p),
{
    if ms.table().owns(p) {
        let i = choose|i: int| 0 <= i < ms.table().frame_list().len() && ms.table().frame_list()[i]
            == p;
    }
}

} // verus!
