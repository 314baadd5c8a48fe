//! The queue of the tasks that are ready to run.

use std::collections::VecDeque;
use vstd::prelude::*;

verus! {

/// The queue of the tasks that are ready to run, by their handles. A task
/// that becomes ready goes to the back; the task that runs next comes from
/// the front.
pub struct TaskManager {
    ready_queue: VecDeque<usize>,
}

impl View for TaskManager {
    type V = Seq<usize>;

    closed spec fn view(&self) -> Seq<usize> {
        self.ready_queue@
    }
}

impl TaskManager {
    /// A queue with no task in it.
    #[verifier::spinoff_prover]
    pub fn new() -> (m: TaskManager)
        ensures
            m@ == Seq::<usize>::empty(),
    {
        TaskManager { ready_queue: VecDeque::new() }
    }

    /// Puts `task` at the back of the queue.
    #[verifier::spinoff_prover]
    pub fn add(&mut self, task: usize)
        ensures
            final(self)@ == old(self)@.push(task),
    {
        self.ready_queue.push_back(task);
    }

    /// Takes the task at the front of the queue; `None` if the queue is
    /// empty.
    #[verifier::spinoff_prover]
    pub fn fetch(&mut self) -> (r: Option<usize>)
        ensures
            old(self)@.len() == 0 ==> r.is_none() && final(self)@ == old(self)@,
            old(self)@.len() > 0 ==> r == Some(old(self)@[0]) && final(self)@ == old(self)@.drop_first(),
    {
        let r = self.ready_queue.pop_front();
        proof {
            if old(self)@.len() > 0 {
                assert(self@ =~= old(self)@.drop_first());
            }
        }
        r
    }

    /// The number of tasks in the queue.
    #[verifier::spinoff_prover]
    pub fn len(&self) -> (n: usize)
        ensures
            n == self@.len(),
    {
        self.ready_queue.len()
    }
}

/// Puts `task` at the back of the queue of `manager`.
#[verifier::spinoff_prover]
pub fn add_task(manager: &mut TaskManager, task: usize)
    ensures
        final(manager)@ == old(manager)@.push(task),
{
    manager.add(task);
}

/// Takes the task at the front of the queue of `manager`; `None` if the
/// queue is empty.
#[verifier::spinoff_prover]
pub fn fetch_task(manager: &mut TaskManager) -> (r: Option<usize>)
    ensures
        old(manager)@.len() == 0 ==> r.is_none() && final(manager)@ == old(manager)@,
        old(manager)@.len() > 0 ==> r == Some(old(manager)@[0]) && final(manager)@ == old(manager)@.drop_first(),
{
    manager.fetch()
}

/// The queue after the task at its front has run and yielded `k` times in
/// a row: each time, the task at the front is taken and put at the back.
pub open spec fn after_yields(q: Seq<usize>, k: nat) -> Seq<usize>
    decreases k,
{
    if k == 0 || q.len() == 0 {
        q
    } else {
        after_yields(q.drop_first().push(q.first()), (k - 1) as nat)
    }
}

/// The tasks that run, in order, when the task at the front of the queue
/// runs and yields `k` times in a row.
pub open spec fn dispatched(q: Seq<usize>, k: nat) -> Seq<usize>
    decreases k,
{
    if k == 0 || q.len() == 0 {
        Seq::empty()
    } else {
        seq![q.first()] + dispatched(q.drop_first().push(q.first()), (k - 1) as nat)
    }
}

/// Tasks that are all ready and yield in turn run round robin, in the order
/// in which they stand in the queue: the `i`-th task to run is the one at
/// position `i` modulo the length of the queue, and after `k` turns the
/// queue is the queue of the start turned by `k` places.
#[verifier::spinoff_prover]
pub proof fn lemma_round_robin(q: Seq<usize>, k: nat)
    requires
        q.len() > 0,
    ensures
        dispatched(q, k).len() == k,
        forall|i: int| 0 <= i < k ==> #[trigger] dispatched(q, k)[i] == q[i % (q.len() as int)],
        after_yields(q, k).len() == q.len(),
        forall|j: int|
            0 <= j < q.len() ==> #[trigger] after_yields(q, k)[j] == q[(j + k) % (q.len() as int)],
    decreases k,
{
    let n = q.len() as int;
    if k == 0 {
        assert forall|j: int| 0 <= j < n implies #[trigger] after_yields(q, k)[j] == q[(j + k)
            % n] by {
            vstd::arithmetic::div_mod::lemma_small_mod(j as nat, n as nat);
        }
    } else {
        let q1 = q.drop_first().push(q.first());
        let m = (k - 1) as nat;
        lemma_round_robin(q1, m);
        assert(q1.len() == n);
        assert forall|j: int| 0 <= j < n implies #[trigger] q1[j] == q[(j + 1) % n] by {
            if j < n - 1 {
                vstd::arithmetic::div_mod::lemma_small_mod((j + 1) as nat, n as nat);
            } else {
                vstd::arithmetic::div_mod::lemma_mod_self_0(n);
            }
        }
        let d = dispatched(q, k);
        let d1 = dispatched(q1, m);
        assert(d =~= seq![q.first()] + d1);
        assert forall|i: int| 0 <= i < k implies #[trigger] d[i] == q[i % n] by {
            if i == 0 {
                vstd::arithmetic::div_mod::lemma_small_mod(0, n as nat);
            } else {
                assert(d[i] == d1[i - 1]);
                assert(d1[i - 1] == q1[(i - 1) % n]);
                let j = (i - 1) % n;
                vstd::arithmetic::div_mod::lemma_mod_bound(i - 1, n);
                assert(q1[j] == q[(j + 1) % n]);
                vstd::arithmetic::div_mod::lemma_add_mod_noop(i - 1, 1, n);
                vstd::arithmetic::div_mod::lemma_mod_twice(i - 1, n);
                if n == 1 {
                    vstd::arithmetic::div_mod::lemma_mod_self_0(1);
                    assert(1int % 1 == 0);
                } else {
                    vstd::arithmetic::div_mod::lemma_small_mod(1, n as nat);
                }
                assert((j + 1) % n == i % n) by {
                    vstd::arithmetic::div_mod::lemma_add_mod_noop(j, 1, n);
                    vstd::arithmetic::div_mod::lemma_add_mod_noop(i - 1, 1, n);
                }
            }
        }
        assert forall|j: int| 0 <= j < n implies #[trigger] after_yields(q, k)[j] == q[(j + k)
            % n] by {
            assert(after_yields(q, k)[j] == after_yields(q1, m)[j]);
            assert(after_yields(q1, m)[j] == q1[(j + m) % n]);
            let t = (j + m) % n;
            vstd::arithmetic::div_mod::lemma_mod_bound(j + m, n);
            assert(q1[t] == q[(t + 1) % n]);
            assert((t + 1) % n == (j + k) % n) by {
                vstd::arithmetic::div_mod::lemma_add_mod_noop(t, 1, n);
                vstd::arithmetic::div_mod::lemma_add_mod_noop(j + m, 1, n);
                vstd::arithmetic::div_mod::lemma_mod_twice(j + m, n);
            }
        }
    }
}

} // verus!
