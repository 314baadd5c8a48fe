//! The allocator of physical frames and the handle that owns one frame.
//!
//! The pool is the range of page numbers `[start, end)`. Frames are handed
//! out from a list of recycled frames first, and from a cursor that only
//! moves up once that list is empty.

use crate::address::{PhysPageNum, PPN_LIMIT};
use crate::memory::PhysMemory;
use vstd::prelude::*;

verus! {

/// What a [`StackFrameAllocator`] stands for: its pool and what is free in it.
pub struct PoolState {
    /// The first page number of the pool.
    pub start: int,
    /// The page numbers from `current` up to `end` were never handed out.
    pub current: int,
    /// One past the last page number of the pool.
    pub end: int,
    /// Frames that were given back, the most recent one last.
    pub recycled: Seq<u64>,
}

impl PoolState {
    /// The pool is a range of valid page numbers, and the recycled list holds
    /// no frame twice and only frames that the cursor has passed.
    pub open spec fn wf(self) -> bool {
        &&& 0 <= self.start <= self.current <= self.end <= PPN_LIMIT
        &&& self.recycled.no_duplicates()
        &&& forall|i: int|
            0 <= i < self.recycled.len() ==> self.start <= #[trigger] self.recycled[i]
                < self.current
    }

    /// Frame `p` was handed out and has not been given back.
    pub open spec fn is_allocated(self, p: u64) -> bool {
        self.start <= p < self.current && !self.recycled.contains(p)
    }

    /// Frame `p` can still be handed out.
    pub open spec fn is_free(self, p: u64) -> bool {
        self.current <= p < self.end || self.recycled.contains(p)
    }

    /// The number of frames that can still be handed out.
    pub open spec fn free_count(self) -> int {
        self.recycled.len() + self.end - self.current
    }

    /// The frame that the next allocation hands out, if there is one.
    pub open spec fn next_frame(self) -> Option<u64> {
        if self.recycled.len() > 0 {
            Some(self.recycled.last())
        } else if self.current == self.end {
            None
        } else {
            Some(self.current as u64)
        }
    }

    /// The pool after one allocation.
    pub open spec fn after_alloc(self) -> PoolState {
        if self.recycled.len() > 0 {
            PoolState { recycled: self.recycled.drop_last(), ..self }
        } else if self.current == self.end {
            self
        } else {
            PoolState { current: self.current + 1, ..self }
        }
    }

    /// The pool after frame `p` was given back.
    pub open spec fn after_dealloc(self, p: u64) -> PoolState {
        PoolState { recycled: self.recycled.push(p), ..self }
    }

    /// The frames that `n` allocations in a row hand out, in order.
    pub open spec fn alloc_seq(self, n: nat) -> Seq<u64>
        decreases n,
    {
        if n == 0 || self.next_frame().is_none() {
            Seq::empty()
        } else {
            seq![self.next_frame().unwrap()] + self.after_alloc().alloc_seq((n - 1) as nat)
        }
    }

    /// The pool after `n` allocations in a row.
    pub open spec fn after_allocs(self, n: nat) -> PoolState
        decreases n,
    {
        if n == 0 {
            self
        } else {
            self.after_alloc().after_allocs((n - 1) as nat)
        }
    }

    /// The pool after the frames of `order` were given back, the first one
    /// first.
    pub open spec fn after_deallocs(self, order: Seq<u64>) -> PoolState
        decreases order.len(),
    {
        if order.len() == 0 {
            self
        } else {
            self.after_dealloc(order[0]).after_deallocs(order.skip(1))
        }
    }
}

/// The owner of one physical frame.
///
/// The handle cannot be copied; giving the frame back to the allocator
/// consumes it.
#[derive(Debug)]
pub struct FrameTracker {
    /// The frame that this handle owns.
    pub ppn: PhysPageNum,
}

impl FrameTracker {
    /// Takes ownership of frame `ppn` and fills it with zeros.
    #[verifier::spinoff_prover]
    pub fn new(ppn: PhysPageNum, mem: &mut PhysMemory) -> (frame: FrameTracker)
        requires
            old(mem).wf(),
            old(mem).contains(ppn),
        ensures
            frame.ppn == ppn,
            final(mem).wf(),
            final(mem).same_range(old(mem)),
            final(mem).page_is_zero(ppn),
            forall|p: PhysPageNum|
                old(mem).contains(p) && p != ppn ==> #[trigger] final(mem).same_page(old(mem), p),
    {
        mem.clear_page(ppn);
        FrameTracker { ppn }
    }
}

/// An allocator that keeps the frames given back on a stack.
pub struct StackFrameAllocator {
    start: u64,
    current: u64,
    end: u64,
    recycled: Vec<u64>,
}

impl View for StackFrameAllocator {
    type V = PoolState;

    closed spec fn view(&self) -> PoolState {
        PoolState {
            start: self.start as int,
            current: self.current as int,
            end: self.end as int,
            recycled: self.recycled@,
        }
    }
}

impl StackFrameAllocator {
    /// The allocator's pool is well formed.
    pub open spec fn wf(&self) -> bool {
        self@.wf()
    }

    /// Frame `ppn` was handed out and has not been given back.
    pub open spec fn is_allocated(&self, ppn: PhysPageNum) -> bool {
        self@.is_allocated(ppn.0)
    }

    /// Every frame of the pool lies in `mem`.
    pub open spec fn fits(&self, mem: &PhysMemory) -> bool {
        mem.base() <= self@.start && self@.end <= mem.base() + mem.page_count()
    }

    /// An allocator with an empty pool.
    #[verifier::spinoff_prover]
    pub fn new() -> (a: StackFrameAllocator)
        ensures
            a@ == (PoolState { start: 0, current: 0, end: 0, recycled: Seq::empty() }),
            a.wf(),
    {
        StackFrameAllocator { start: 0, current: 0, end: 0, recycled: Vec::new() }
    }

    /// Sets the pool to the page numbers from `l` up to, but without, `r`.
    /// The list of recycled frames is kept as it is.
    #[verifier::spinoff_prover]
    pub fn init(&mut self, l: PhysPageNum, r: PhysPageNum)
        ensures
            final(self)@ == (PoolState {
                start: l.0 as int,
                current: l.0 as int,
                end: r.0 as int,
                recycled: old(self)@.recycled,
            }),
            old(self)@.recycled.len() == 0 && l.0 <= r.0 <= PPN_LIMIT ==> final(self).wf(),
    {
        self.start = l.0;
        self.current = l.0;
        self.end = r.0;
    }

    /// Hands out a frame: the one given back last if there is one, else the
    /// one at the cursor; none if the pool is used up.
    #[verifier::spinoff_prover]
    pub fn alloc_frame(&mut self) -> (r: Option<PhysPageNum>)
        requires
            old(self).wf(),
        ensures
            final(self).wf(),
            final(self)@ == old(self)@.after_alloc(),
            r == match old(self)@.next_frame() {
                Some(p) => Some(PhysPageNum(p)),
                None => None,
            },
            r.is_none() <==> old(self)@.free_count() == 0,
            r matches Some(p) ==> {
                &&& old(self)@.is_free(p.0)
                &&& !old(self).is_allocated(p)
                &&& final(self).is_allocated(p)
                &&& old(self)@.start <= p.0 < old(self)@.end
                &&& forall|q: PhysPageNum| #[trigger]
                    final(self).is_allocated(q) <==> q == p || old(self).is_allocated(q)
            },
            r.is_none() ==> final(self)@ == old(self)@,
    {
        if let Some(ppn) = self.recycled.pop() {
            proof {
                let old_rec = old(self)@.recycled;
                let p = PhysPageNum(ppn);
                assert(old_rec[old_rec.len() - 1] == ppn);
                assert(self@.recycled =~= old_rec.drop_last());
                assert(!self@.recycled.contains(ppn)) by {
                    if self@.recycled.contains(ppn) {
                        let i = choose|i: int|
                            0 <= i < self@.recycled.len() && self@.recycled[i] == ppn;
                        assert(old_rec[i] == ppn);
                    }
                }
                assert forall|q: PhysPageNum| #[trigger]
                    self.is_allocated(q) <==> q == p || old(self).is_allocated(q) by {
                    if old_rec.contains(q.0) && q != p {
                        let i = choose|i: int| 0 <= i < old_rec.len() && old_rec[i] == q.0;
                        assert(self@.recycled[i] == q.0);
                    }
                    if self@.recycled.contains(q.0) {
                        let i = choose|i: int|
                            0 <= i < self@.recycled.len() && self@.recycled[i] == q.0;
                        assert(old_rec[i] == q.0);
                    }
                }
                assert(ppn % PPN_LIMIT == ppn);
            }
            Some(PhysPageNum::from(ppn))
        } else if self.current == self.end {
            None
        } else {
            self.current += 1;
            proof {
                assert((self.current - 1) as u64 % PPN_LIMIT == (self.current - 1) as u64);
                assert(self@.recycled =~= Seq::<u64>::empty());
            }
            Some(PhysPageNum::from(self.current - 1))
        }
    }

    /// Whether frame `ppn` was handed out and has not been given back.
    #[verifier::spinoff_prover]
    pub fn allocated(&self, ppn: PhysPageNum) -> (r: bool)
        ensures
            r == self.is_allocated(ppn),
    {
        if ppn.0 < self.start || ppn.0 >= self.current {
            return false;
        }
        let mut i: usize = 0;
        while i < self.recycled.len()
            invariant
                i <= self.recycled@.len(),
                forall|j: int| 0 <= j < i ==> self.recycled@[j] != ppn.0,
            decreases self.recycled@.len() - i,
        {
            if self.recycled[i] == ppn.0 {
                return false;
            }
            i += 1;
        }
        true
    }

    /// Takes frame `ppn` back. The frame must have been handed out and not
    /// given back since.
    #[verifier::spinoff_prover]
    pub fn dealloc(&mut self, ppn: PhysPageNum)
        requires
            old(self).wf(),
            old(self).is_allocated(ppn),
        ensures
            final(self).wf(),
            final(self)@ == old(self)@.after_dealloc(ppn.0),
            !final(self).is_allocated(ppn),
            forall|q: PhysPageNum| #[trigger]
                final(self).is_allocated(q) <==> q != ppn && old(self).is_allocated(q),
    {
        let ppn: u64 = ppn.0;
        self.recycled.push(ppn);
        proof {
            let old_rec = old(self)@.recycled;
            assert(self@.recycled =~= old_rec.push(ppn));
            assert(self@.recycled[old_rec.len() as int] == ppn);
            assert forall|q: PhysPageNum| #[trigger]
                self.is_allocated(q) <==> q.0 != ppn && old(self).is_allocated(q) by {
                if old_rec.contains(q.0) {
                    let i = choose|i: int| 0 <= i < old_rec.len() && old_rec[i] == q.0;
                    assert(self@.recycled[i] == q.0);
                }
            }
        }
    }
}

/// Sets up the pool of `allocator` from the end of the kernel image to the
/// end of memory: the frames from the first page boundary at or after
/// `kernel_end` up to the page that holds `memory_end`.
#[verifier::spinoff_prover]
pub fn init_frame_allocator(allocator: &mut StackFrameAllocator, kernel_end: u64, memory_end: u64)
    ensures
        final(allocator)@.start == (kernel_end % crate::address::PA_LIMIT + 4095) / 4096,
        final(allocator)@.current == final(allocator)@.start,
        final(allocator)@.end == (memory_end % crate::address::PA_LIMIT) / 4096,
        final(allocator)@.recycled == old(allocator)@.recycled,
{
    let first = crate::address::PhysAddr::from(kernel_end);
    let last = crate::address::PhysAddr::from(memory_end);
    allocator.init(first.ceil(), last.floor());
}

/// Allocates a frame and fills it with zeros; `None` if the pool is used up.
#[verifier::spinoff_prover]
pub fn frame_alloc(allocator: &mut StackFrameAllocator, mem: &mut PhysMemory) -> (r: Option<
    FrameTracker,
>)
    requires
        old(allocator).wf(),
        old(mem).wf(),
        old(allocator).fits(old(mem)),
    ensures
        final(allocator).wf(),
        final(mem).wf(),
        final(mem).same_range(old(mem)),
        final(allocator)@ == old(allocator)@.after_alloc(),
        r.is_none() <==> old(allocator)@.free_count() == 0,
        r.is_none() ==> final(allocator)@ == old(allocator)@ && forall|p: PhysPageNum|
            old(mem).contains(p) ==> #[trigger] final(mem).same_page(old(mem), p),
        r matches Some(frame) ==> {
            &&& old(allocator)@.next_frame() == Some(frame.ppn.0)
            &&& !old(allocator).is_allocated(frame.ppn)
            &&& final(allocator).is_allocated(frame.ppn)
            &&& final(mem).contains(frame.ppn)
            &&& final(mem).page_is_zero(frame.ppn)
            &&& forall|q: PhysPageNum| #[trigger]
                final(allocator).is_allocated(q) <==> q == frame.ppn || old(allocator).is_allocated(q)
            &&& forall|p: PhysPageNum|
                old(mem).contains(p) && p != frame.ppn ==> #[trigger] final(mem).same_page(
                    old(mem),
                    p,
                )
        },
{
    match allocator.alloc_frame() {
        Some(ppn) => Some(FrameTracker::new(ppn, mem)),
        None => None,
    }
}

/// Gives the frame that `frame` owns back to the allocator.
#[verifier::spinoff_prover]
pub fn frame_dealloc(allocator: &mut StackFrameAllocator, frame: FrameTracker)
    requires
        old(allocator).wf(),
        old(allocator).is_allocated(frame.ppn),
    ensures
        final(allocator).wf(),
        final(allocator)@ == old(allocator)@.after_dealloc(frame.ppn.0),
        forall|q: PhysPageNum| #[trigger]
            final(allocator).is_allocated(q) <==> q != frame.ppn && old(allocator).is_allocated(q),
{
    allocator.dealloc(frame.ppn);
}

/// `n` allocations from a pool with at least `n` free frames all succeed:
/// they hand out `n` different frames, none of which was allocated before and
/// all of which are allocated afterwards, and every frame that was allocated
/// before stays so.
#[verifier::spinoff_prover]
pub proof fn lemma_allocs(s: PoolState, n: nat)
    requires
        s.wf(),
        n <= s.free_count(),
    ensures
        s.alloc_seq(n).len() == n,
        s.alloc_seq(n).no_duplicates(),
        s.after_allocs(n).wf(),
        s.after_allocs(n).free_count() == s.free_count() - n,
        s.after_allocs(n).start == s.start,
        s.after_allocs(n).end == s.end,
        forall|i: int|
            0 <= i < n ==> !s.is_allocated(#[trigger] s.alloc_seq(n)[i]) && s.after_allocs(
                n,
            ).is_allocated(s.alloc_seq(n)[i]),
        forall|p: u64|
            s.after_allocs(n).is_allocated(p) <==> s.is_allocated(p) || s.alloc_seq(n).contains(p),
    decreases n,
{
    if n == 0 {
    } else {
        let p = s.next_frame().unwrap();
        let s1 = s.after_alloc();
        let m = (n - 1) as nat;
        let rest = s1.alloc_seq(m);
        let a = s.alloc_seq(n);
        assert(s1.wf()) by {
            if s.recycled.len() > 0 {
                assert forall|i: int, j: int|
                    0 <= i < s1.recycled.len() && 0 <= j < s1.recycled.len() && i != j implies s1.recycled[i]
                    != s1.recycled[j] by {
                    assert(s1.recycled[i] == s.recycled[i]);
                    assert(s1.recycled[j] == s.recycled[j]);
                }
                assert forall|i: int| 0 <= i < s1.recycled.len() implies s1.start
                    <= #[trigger] s1.recycled[i] < s1.current by {
                    assert(s1.recycled[i] == s.recycled[i]);
                }
            }
        }
        lemma_allocs(s1, m);
        assert(a =~= seq![p] + rest);
        assert(forall|i: int| 1 <= i < n ==> a[i] == rest[i - 1]);
        // The first frame was free, and is allocated after the first step.
        assert(!s.is_allocated(p) && s1.is_allocated(p)) by {
            if s.recycled.len() > 0 {
                assert(s.recycled[s.recycled.len() - 1] == p);
                if s1.recycled.contains(p) {
                    let i = choose|i: int| 0 <= i < s1.recycled.len() && s1.recycled[i] == p;
                    assert(s.recycled[i] == p);
                }
            } else {
                assert(s1.recycled =~= s.recycled);
            }
        }
        // Allocation status of every frame but the first is the same in `s` and `s1`.
        assert forall|q: u64| q != p implies (s1.is_allocated(q) <==> s.is_allocated(q)) by {
            if s.recycled.len() > 0 {
                if s.recycled.contains(q) {
                    let i = choose|i: int| 0 <= i < s.recycled.len() && s.recycled[i] == q;
                    assert(s1.recycled[i] == q);
                }
                if s1.recycled.contains(q) {
                    let i = choose|i: int| 0 <= i < s1.recycled.len() && s1.recycled[i] == q;
                    assert(s.recycled[i] == q);
                }
            }
        }
        assert(!rest.contains(p)) by {
            if rest.contains(p) {
                let i = choose|i: int| 0 <= i < rest.len() && rest[i] == p;
                assert(!s1.is_allocated(rest[i]));
            }
        }
        assert(a.no_duplicates()) by {
            assert forall|i: int, j: int| 0 <= i < a.len() && 0 <= j < a.len() && i != j implies a[i]
                != a[j] by {
                if i == 0 {
                    assert(rest[j - 1] == a[j]);
                    assert(rest.contains(a[j]));
                } else if j == 0 {
                    assert(rest[i - 1] == a[i]);
                    assert(rest.contains(a[i]));
                } else {
                    assert(rest[i - 1] == a[i] && rest[j - 1] == a[j]);
                }
            }
        }
        assert forall|i: int| 0 <= i < n implies !s.is_allocated(#[trigger] a[i]) && s.after_allocs(
            n,
        ).is_allocated(a[i]) by {
            if i == 0 {
                assert(s1.after_allocs(m).is_allocated(p) <==> s1.is_allocated(p) || rest.contains(p));
            } else {
                assert(a[i] == rest[i - 1]);
                assert(rest.contains(a[i]));
                assert(a[i] != p);
            }
        }
        assert forall|q: u64|
            s.after_allocs(n).is_allocated(q) <==> s.is_allocated(q) || a.contains(q) by {
            assert(s1.after_allocs(m).is_allocated(q) <==> s1.is_allocated(q) || rest.contains(q));
            if rest.contains(q) {
                let i = choose|i: int| 0 <= i < rest.len() && rest[i] == q;
                assert(a[i + 1] == q);
            }
            if a.contains(q) {
                let i = choose|i: int| 0 <= i < a.len() && a[i] == q;
                if i > 0 {
                    assert(rest[i - 1] == q);
                }
            }
            assert(a[0] == p);
        }
    }
}

/// Giving back a list of different allocated frames puts them on top of the
/// recycled list, in the order in which they were given back.
#[verifier::spinoff_prover]
pub proof fn lemma_deallocs(s: PoolState, order: Seq<u64>)
    requires
        s.wf(),
        order.no_duplicates(),
        forall|i: int| 0 <= i < order.len() ==> s.is_allocated(#[trigger] order[i]),
    ensures
        s.after_deallocs(order) == (PoolState { recycled: s.recycled + order, ..s }),
        s.after_deallocs(order).wf(),
        forall|p: u64|
            s.after_deallocs(order).is_allocated(p) <==> s.is_allocated(p) && !order.contains(p),
    decreases order.len(),
{
    if order.len() == 0 {
        assert(s.recycled + order =~= s.recycled);
    } else {
        let p = order[0];
        let s1 = s.after_dealloc(p);
        let rest = order.skip(1);
        assert(s.is_allocated(order[0]));
        assert(s1.wf()) by {
            assert forall|i: int, j: int|
                0 <= i < s1.recycled.len() && 0 <= j < s1.recycled.len() && i != j implies s1.recycled[i]
                != s1.recycled[j] by {
                if i < s.recycled.len() {
                    assert(s.recycled.contains(s.recycled[i]));
                }
                if j < s.recycled.len() {
                    assert(s.recycled.contains(s.recycled[j]));
                }
            }
        }
        assert forall|q: u64| s1.is_allocated(q) <==> s.is_allocated(q) && q != p by {
            if s.recycled.contains(q) {
                let i = choose|i: int| 0 <= i < s.recycled.len() && s.recycled[i] == q;
                assert(s1.recycled[i] == q);
            }
            assert(s1.recycled[s.recycled.len() as int] == p);
        }
        assert forall|i: int| 0 <= i < rest.len() implies s1.is_allocated(#[trigger] rest[i]) by {
            assert(rest[i] == order[i + 1]);
            assert(s.is_allocated(order[i + 1]));
        }
        assert(rest.no_duplicates()) by {
            assert forall|i: int, j: int|
                0 <= i < rest.len() && 0 <= j < rest.len() && i != j implies rest[i] != rest[j] by {
                assert(rest[i] == order[i + 1] && rest[j] == order[j + 1]);
            }
        }
        lemma_deallocs(s1, rest);
        assert(s1.recycled + rest =~= s.recycled + order);
        assert forall|q: u64|
            s.after_deallocs(order).is_allocated(q) <==> s.is_allocated(q) && !order.contains(q) by {
            if rest.contains(q) {
                let i = choose|i: int| 0 <= i < rest.len() && rest[i] == q;
                assert(order[i + 1] == q);
            }
            if order.contains(q) {
                let i = choose|i: int| 0 <= i < order.len() && order[i] == q;
                if i > 0 {
                    assert(rest[i - 1] == q);
                }
            }
        }
    }
}

/// Allocations from a pool whose recycled list ends in `top` hand out the
/// frames of `top`, the last one first.
#[verifier::spinoff_prover]
pub proof fn lemma_allocs_pop(s: PoolState, top: Seq<u64>, n: nat)
    requires
        n <= top.len(),
        s.recycled.len() >= top.len(),
        s.recycled.subrange(s.recycled.len() - top.len(), s.recycled.len() as int) == top,
    ensures
        s.alloc_seq(n).len() == n,
        forall|i: int| 0 <= i < n ==> #[trigger] s.alloc_seq(n)[i] == top[top.len() - 1 - i],
    decreases n,
{
    if n > 0 {
        let s1 = s.after_alloc();
        let top1 = top.drop_last();
        let k = s.recycled.len() - top.len();
        assert(s.recycled.last() == top[top.len() - 1]) by {
            assert(s.recycled.subrange(k, s.recycled.len() as int)[top.len() - 1] == s.recycled[
                s.recycled.len() - 1]);
        }
        assert(s1.recycled.subrange(s1.recycled.len() - top1.len(), s1.recycled.len() as int)
            =~= top1) by {
            assert forall|i: int| 0 <= i < top1.len() implies s1.recycled[k + i] == top1[i] by {
                assert(s.recycled.subrange(k, s.recycled.len() as int)[i] == s.recycled[k + i]);
            }
        }
        lemma_allocs_pop(s1, top1, (n - 1) as nat);
        let a = s.alloc_seq(n);
        let rest = s1.alloc_seq((n - 1) as nat);
        assert(a =~= seq![top[top.len() - 1]] + rest);
        assert forall|i: int| 0 <= i < n implies #[trigger] a[i] == top[top.len() - 1 - i] by {
            if i > 0 {
                assert(a[i] == rest[i - 1]);
                assert(rest[i - 1] == top1[top1.len() - 1 - (i - 1)]);
            }
        }
    }
}

/// No frame is owned twice and none is lost: `n` allocations hand out `n`
/// different frames, none of which was allocated before; once all of them
/// have been given back, in any order, the next `n` allocations hand out
/// exactly the same frames again.
#[verifier::spinoff_prover]
pub proof fn lemma_frames_are_conserved(s: PoolState, n: nat, order: Seq<u64>)
    requires
        s.wf(),
        n <= s.free_count(),
        order.len() == n,
        order.no_duplicates(),
        forall|p: u64| order.contains(p) <==> s.alloc_seq(n).contains(p),
    ensures
        s.alloc_seq(n).len() == n,
        s.alloc_seq(n).no_duplicates(),
        forall|i: int| 0 <= i < n ==> !s.is_allocated(#[trigger] s.alloc_seq(n)[i]),
        s.after_allocs(n).after_deallocs(order).wf(),
        s.after_allocs(n).after_deallocs(order).free_count() == s.free_count(),
        forall|p: u64| s.after_allocs(n).after_deallocs(order).is_allocated(p) <==> s.is_allocated(p),
        s.after_allocs(n).after_deallocs(order).alloc_seq(n).len() == n,
        s.after_allocs(n).after_deallocs(order).alloc_seq(n).to_set() == s.alloc_seq(n).to_set(),
{
    let a = s.alloc_seq(n);
    let s1 = s.after_allocs(n);
    lemma_allocs(s, n);
    assert forall|i: int| 0 <= i < order.len() implies s1.is_allocated(#[trigger] order[i]) by {
        assert(order.contains(order[i]));
        let j = choose|j: int| 0 <= j < a.len() && a[j] == order[i];
        assert(s1.is_allocated(a[j]));
    }
    lemma_deallocs(s1, order);
    let s2 = s1.after_deallocs(order);
    assert(s2.recycled.subrange(s2.recycled.len() - order.len(), s2.recycled.len() as int)
        =~= order);
    lemma_allocs_pop(s2, order, n);
    let b = s2.alloc_seq(n);
    assert forall|p: u64| s2.is_allocated(p) <==> s.is_allocated(p) by {
        if a.contains(p) {
            let j = choose|j: int| 0 <= j < a.len() && a[j] == p;
            assert(!s.is_allocated(a[j]));
        }
    }
    assert(b.to_set() =~= a.to_set()) by {
        assert forall|p: u64| b.contains(p) <==> a.contains(p) by {
            if b.contains(p) {
                let i = choose|i: int| 0 <= i < b.len() && b[i] == p;
                assert(b[i] == order[order.len() - 1 - i]);
                assert(order.contains(p));
            }
            if a.contains(p) {
                assert(order.contains(p));
                let i = choose|i: int| 0 <= i < order.len() && order[i] == p;
                assert(b[n - 1 - i] == order[order.len() - 1 - (n - 1 - i)]);
            }
        }
    }
}

/// Frame `p` is allocated in the pool `a1` and holds the same words in `m1`
/// as in `m0`.
pub open spec fn frame_kept(a1: PoolState, m0: &PhysMemory, m1: &PhysMemory, p: PhysPageNum) -> bool {
    a1.is_allocated(p.0) && m1.same_page(m0, p)
}

/// A step from the pool `a0` and the memory `m0` to `a1` and `m1`, made by
/// the owner of the frames `mine`, leaves every other allocated frame as it
/// was: still allocated, with the same content.
pub open spec fn others_untouched(
    a0: PoolState,
    m0: &PhysMemory,
    a1: PoolState,
    m1: &PhysMemory,
    mine: Set<PhysPageNum>,
) -> bool {
    &&& m1.same_range(m0)
    &&& a1.start == a0.start
    &&& a1.end == a0.end
    &&& forall|p: PhysPageNum|
        a0.is_allocated(p.0) && !mine.contains(p) ==> #[trigger] frame_kept(a1, m0, m1, p)
}

/// Two steps in a row by one owner leave the frames of others untouched if
/// each step does, and if the owner entered the second step with nothing but
/// the frames it had before and frames that were free then.
#[verifier::spinoff_prover]
pub proof fn lemma_others_untouched_trans(
    a0: PoolState,
    m0: &PhysMemory,
    a1: PoolState,
    m1: &PhysMemory,
    a2: PoolState,
    m2: &PhysMemory,
    mine0: Set<PhysPageNum>,
    mine1: Set<PhysPageNum>,
)
    requires
        others_untouched(a0, m0, a1, m1, mine0),
        others_untouched(a1, m1, a2, m2, mine1),
        forall|p: PhysPageNum| mine1.contains(p) ==> mine0.contains(p) || !a0.is_allocated(p.0),
    ensures
        others_untouched(a0, m0, a2, m2, mine0),
{
    assert forall|p: PhysPageNum| a0.is_allocated(p.0) && !mine0.contains(p) implies #[trigger] frame_kept(
        a2,
        m0,
        m2,
        p,
    ) by {
        assert(frame_kept(a1, m0, m1, p));
        assert(frame_kept(a2, m1, m2, p));
    }
}

/// A step from the pool `a0` and the memory `m0` to `a1` and `m1`, made by
/// an owner that held the frames `mine0` before and holds `mine1` after:
/// nobody else's frame was touched, every frame that the owner gained was
/// free before, and the frames allocated afterwards are those of the others
/// and those that the owner holds.
pub open spec fn step_ok(
    a0: PoolState,
    m0: &PhysMemory,
    a1: PoolState,
    m1: &PhysMemory,
    mine0: Set<PhysPageNum>,
    mine1: Set<PhysPageNum>,
) -> bool {
    &&& others_untouched(a0, m0, a1, m1, mine0)
    &&& forall|p: PhysPageNum| #[trigger]
        mine1.contains(p) && !mine0.contains(p) ==> !a0.is_allocated(p.0)
    &&& forall|p: PhysPageNum| #[trigger]
        a1.is_allocated(p.0) <==> (a0.is_allocated(p.0) && !mine0.contains(p)) || mine1.contains(p)
}

/// Two steps in a row by one owner are one step.
#[verifier::spinoff_prover]
pub proof fn lemma_step_ok_trans(
    a0: PoolState,
    m0: &PhysMemory,
    a1: PoolState,
    m1: &PhysMemory,
    a2: PoolState,
    m2: &PhysMemory,
    mine0: Set<PhysPageNum>,
    mine1: Set<PhysPageNum>,
    mine2: Set<PhysPageNum>,
)
    requires
        step_ok(a0, m0, a1, m1, mine0, mine1),
        step_ok(a1, m1, a2, m2, mine1, mine2),
    ensures
        step_ok(a0, m0, a2, m2, mine0, mine2),
{
    assert forall|p: PhysPageNum| mine1.contains(p) implies mine0.contains(p) || !a0.is_allocated(
        p.0,
    ) by {}
    lemma_others_untouched_trans(a0, m0, a1, m1, a2, m2, mine0, mine1);
    assert forall|p: PhysPageNum| #[trigger]
        mine2.contains(p) && !mine0.contains(p) implies !a0.is_allocated(p.0) by {
        if !mine1.contains(p) {
            assert(!a1.is_allocated(p.0));
            assert(a1.is_allocated(p.0) <==> (a0.is_allocated(p.0) && !mine0.contains(p))
                || mine1.contains(p));
        }
    }
    assert forall|p: PhysPageNum| #[trigger]
        a2.is_allocated(p.0) <==> (a0.is_allocated(p.0) && !mine0.contains(p)) || mine2.contains(
            p,
        ) by {
        assert(a1.is_allocated(p.0) <==> (a0.is_allocated(p.0) && !mine0.contains(p))
            || mine1.contains(p));
        assert(a2.is_allocated(p.0) <==> (a1.is_allocated(p.0) && !mine1.contains(p))
            || mine2.contains(p));
    }
}

/// A step by the owner of one part of what an owner holds is a step by the
/// whole owner, if the rest of what it holds is allocated and apart from the
/// part.
#[verifier::spinoff_prover]
pub proof fn lemma_step_ok_widen(
    a0: PoolState,
    m0: &PhysMemory,
    a1: PoolState,
    m1: &PhysMemory,
    part0: Set<PhysPageNum>,
    part1: Set<PhysPageNum>,
    rest: Set<PhysPageNum>,
)
    requires
        step_ok(a0, m0, a1, m1, part0, part1),
        forall|p: PhysPageNum| #[trigger] rest.contains(p) ==> a0.is_allocated(p.0) && !part0.contains(p),
    ensures
        step_ok(a0, m0, a1, m1, part0 + rest, part1 + rest),
        forall|p: PhysPageNum| #[trigger] rest.contains(p) ==> frame_kept(a1, m0, m1, p) && !part1.contains(p),
{
    assert forall|p: PhysPageNum| #[trigger] rest.contains(p) implies frame_kept(a1, m0, m1, p)
        && !part1.contains(p) by {
        assert(a0.is_allocated(p.0) && !part0.contains(p));
        assert(frame_kept(a1, m0, m1, p));
    }
    assert forall|p: PhysPageNum|
        a0.is_allocated(p.0) && !(part0 + rest).contains(p) implies #[trigger] frame_kept(
        a1,
        m0,
        m1,
        p,
    ) by {
        assert(!part0.contains(p));
    }
    assert forall|p: PhysPageNum| #[trigger]
        a1.is_allocated(p.0) <==> (a0.is_allocated(p.0) && !(part0 + rest).contains(p)) || (part1
            + rest).contains(p) by {
        assert(a1.is_allocated(p.0) <==> (a0.is_allocated(p.0) && !part0.contains(p))
            || part1.contains(p));
        if rest.contains(p) {
            assert(frame_kept(a1, m0, m1, p));
        }
    }
}

/// A step that changes nothing is a step by any owner whose frames are
/// allocated.
#[verifier::spinoff_prover]
pub proof fn lemma_step_ok_refl(a: PoolState, m: &PhysMemory, mine: Set<PhysPageNum>)
    requires
        forall|p: PhysPageNum| #[trigger] mine.contains(p) ==> a.is_allocated(p.0),
    ensures
        step_ok(a, m, a, m, mine, mine),
{
    assert forall|p: PhysPageNum| a.is_allocated(p.0) && !mine.contains(p) implies #[trigger] frame_kept(
        a,
        m,
        m,
        p,
    ) by {}
}

} // verus!
