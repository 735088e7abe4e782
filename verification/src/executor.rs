//! The scheduler's shared state and the decisions taken on it: spawning and
//! enqueueing tasks, picking an idle worker to unpark, and each worker's search
//! for the next task to poll (its local deque, then the injector, then stealing).
use vstd::prelude::*;
use crossbeam_deque::Worker as DequeWorker;
use crossbeam_queue::SegQueue;
use vstd::multiset::Multiset;
use crate::queues::{
    deque_is_empty, deque_is_fifo, deque_items, deque_new_fifo, deque_pop, deque_push, deque_unshared,
    deque_steal_batch, injector_is_empty, injector_items, injector_new, injector_pop,
    injector_len, injector_push, StealOutcome,
};
use crate::task::{record_poll, requeue_after_poll, PollStatus, Task, TaskState};

verus! {

/// The most worker threads an executor starts.
pub const MAX_WORKERS: usize = 10;

/// The number of workers for a machine that offers `available` hardware threads:
/// all of them, but at most `MAX_WORKERS`.
pub open spec fn worker_count(available: usize) -> usize {
    if available > MAX_WORKERS {
        MAX_WORKERS
    } else {
        available
    }
}

/// The lowest-numbered idle worker, if any worker is idle.
pub open spec fn unpark_target(idle: Seq<bool>) -> Option<int> {
    if exists|k: int| 0 <= k < idle.len() && #[trigger] idle[k] {
        Some(
            choose|k: int|
                0 <= k < idle.len() && #[trigger] idle[k] && forall|j: int|
                    0 <= j < k ==> !#[trigger] idle[j],
        )
    } else {
        None
    }
}

/// The idle flags after unparking the worker that `unpark_target` picks.
pub open spec fn after_unpark(idle: Seq<bool>) -> Seq<bool> {
    match unpark_target(idle) {
        Some(k) => idle.update(k, false),
        None => idle,
    }
}

/// The number of identifiers held by a sequence of worker deques.
pub open spec fn deques_len(ds: Seq<DequeWorker<u64>>) -> nat
    decreases ds.len(),
{
    if ds.len() == 0 {
        0
    } else {
        deques_len(ds.drop_last()) + deque_items(ds.last()).len()
    }
}

/// Replacing one deque changes the total by the difference of the two lengths.
proof fn lemma_deques_len_update(ds: Seq<DequeWorker<u64>>, i: int, d: DequeWorker<u64>)
    requires
        0 <= i < ds.len(),
    ensures
        deques_len(ds.update(i, d)) + deque_items(ds[i]).len() == deques_len(ds) + deque_items(
            d,
        ).len(),
    decreases ds.len(),
{
    let u = ds.update(i, d);
    if i == ds.len() - 1 {
        assert(u.drop_last() =~= ds.drop_last());
    } else {
        assert(u.drop_last() =~= ds.drop_last().update(i, d));
        lemma_deques_len_update(ds.drop_last(), i, d);
    }
}

/// The identifiers held by a sequence of worker deques, counted with multiplicity.
pub open spec fn deques_items(ds: Seq<DequeWorker<u64>>) -> Multiset<u64>
    decreases ds.len(),
{
    if ds.len() == 0 {
        Multiset::empty()
    } else {
        deques_items(ds.drop_last()).add(deque_items(ds.last()).to_multiset())
    }
}

/// Replacing one deque changes the identifiers held by the difference of the two.
proof fn lemma_deques_items_update(ds: Seq<DequeWorker<u64>>, i: int, d: DequeWorker<u64>)
    requires
        0 <= i < ds.len(),
    ensures
        deques_items(ds.update(i, d)).add(deque_items(ds[i]).to_multiset()) =~= deques_items(ds).add(
            deque_items(d).to_multiset(),
        ),
    decreases ds.len(),
{
    broadcast use vstd::multiset::group_multiset_axioms;

    let u = ds.update(i, d);
    let lhs = deques_items(u).add(deque_items(ds[i]).to_multiset());
    let rhs = deques_items(ds).add(deque_items(d).to_multiset());
    assert(deques_items(u) == deques_items(u.drop_last()).add(deque_items(u.last()).to_multiset()));
    assert(deques_items(ds) == deques_items(ds.drop_last()).add(deque_items(ds.last()).to_multiset()));
    if i == ds.len() - 1 {
        assert(u.drop_last() =~= ds.drop_last());
        assert(u.last() == d);
        assert forall|v: u64| lhs.count(v) == rhs.count(v) by {}
    } else {
        assert(u.drop_last() =~= ds.drop_last().update(i, d));
        assert(u.last() == ds.last());
        lemma_deques_items_update(ds.drop_last(), i, d);
        let ih_l = deques_items(ds.drop_last().update(i, d)).add(deque_items(ds.drop_last()[i]).to_multiset());
        let ih_r = deques_items(ds.drop_last()).add(deque_items(d).to_multiset());
        assert forall|v: u64| lhs.count(v) == rhs.count(v) by {
            assert(ih_l.count(v) == ih_r.count(v));
        }
    }
}

/// Whenever worker `k` is idle, some worker is picked for unparking: an idle one,
/// numbered at most `k`, with every lower-numbered worker busy.
pub proof fn lemma_unpark_target(idle: Seq<bool>, k: int)
    requires
        0 <= k < idle.len(),
        idle[k],
    ensures
        unpark_target(idle) is Some,
        0 <= unpark_target(idle)->0 <= k,
        idle[unpark_target(idle)->0],
        forall|j: int| 0 <= j < unpark_target(idle)->0 ==> !#[trigger] idle[j],
    decreases k,
{
    if exists|j: int| 0 <= j < k && #[trigger] idle[j] {
        let j = choose|j: int| 0 <= j < k && #[trigger] idle[j];
        lemma_unpark_target(idle, j);
    } else {
        assert(0 <= k < idle.len() && idle[k] && forall|j: int| 0 <= j < k ==> !#[trigger] idle[j]);
        let c = choose|c: int|
            0 <= c < idle.len() && #[trigger] idle[c] && forall|j: int|
                0 <= j < c ==> !#[trigger] idle[j];
        if c < k {
            assert(idle[c]);
        }
        if k < c {
            assert(!idle[k]);
        }
    }
}

/// The first true flag, when every flag before it is false, is the one that
/// `unpark_target` names.
proof fn lemma_unpark_target_is(idle: Seq<bool>, k: int)
    requires
        0 <= k < idle.len(),
        idle[k],
        forall|j: int| 0 <= j < k ==> !#[trigger] idle[j],
    ensures
        unpark_target(idle) == Some(k),
{
    lemma_unpark_target(idle, k);
    let c = unpark_target(idle)->0;
    if c < k {
        assert(!idle[c]);
    }
}

/// No wake-up is lost: once a worker has marked itself idle to park, the next
/// enqueue unparks a worker, and afterwards the picked worker is marked busy.
pub proof fn lemma_parked_worker_is_unparked(idle: Seq<bool>, me: int)
    requires
        0 <= me < idle.len(),
    ensures
        unpark_target(idle.update(me, true)) is Some,
        0 <= unpark_target(idle.update(me, true))->0 <= me,
        !after_unpark(idle.update(me, true))[unpark_target(idle.update(me, true))->0],
{
    lemma_unpark_target(idle.update(me, true), me);
}

/// A task is polled by at most one worker at a time: while it is being polled it is
/// not runnable, so no worker can claim it until its poll is recorded as pending.
pub proof fn lemma_polling_task_is_not_claimable<F>(h: ExecutorHandle<F>, id: u64)
    requires
        id < h.tasks().len(),
        h.tasks()[id as int].spec_state() == TaskState::Polling,
    ensures
        !h.runnable(id),
{
}

/// Tasks have distinct identifiers: task `i` has identifier `i`.
pub proof fn lemma_task_ids_distinct<F>(h: ExecutorHandle<F>, i: int, j: int)
    requires
        h.wf(),
        0 <= i < j < h.tasks().len(),
    ensures
        h.tasks()[i].spec_id() != h.tasks()[j].spec_id(),
{
    assert(h.tasks()[i].spec_id() == i);
    assert(h.tasks()[j].spec_id() == j);
}

/// An executor has at least one worker and at most `MAX_WORKERS`.
pub proof fn lemma_worker_count_bounds(available: usize)
    requires
        available >= 1,
    ensures
        1 <= worker_count(available) <= MAX_WORKERS,
        worker_count(available) <= available,
{
}

/// One worker per hardware thread, up to the cap: the worker count is the smaller of
/// `available` and `MAX_WORKERS`, so a machine within the cap gets a worker for every
/// thread, and a larger one gets exactly the cap.
pub proof fn lemma_worker_count_is_min(available: usize)
    ensures
        available <= MAX_WORKERS ==> worker_count(available) == available,
        available > MAX_WORKERS ==> worker_count(available) == MAX_WORKERS,
        worker_count(available) <= available,
        worker_count(available) <= MAX_WORKERS,
{
}

/// The shared state of the scheduler: the global injector queue, one FIFO deque and
/// one idle flag per worker, and the table of spawned tasks, indexed by task
/// identifier. Queues hold task identifiers.
pub struct ExecutorHandle<F> {
    injector: SegQueue<u64>,
    locals: Vec<DequeWorker<u64>>,
    idle: Vec<bool>,
    tasks: Vec<Task<F>>,
}

impl<F> ExecutorHandle<F> {
    /// The identifiers in the injector, oldest first.
    pub closed spec fn injector(&self) -> Seq<u64> {
        injector_items(self.injector)
    }

    /// Worker `w`'s deque.
    pub closed spec fn deque(&self, w: int) -> DequeWorker<u64> {
        self.locals@[w]
    }

    /// The identifiers in worker `w`'s deque, next to be popped first.
    pub open spec fn local(&self, w: int) -> Seq<u64> {
        deque_items(self.deque(w))
    }

    /// The number of workers.
    pub closed spec fn spec_num_workers(&self) -> nat {
        self.locals@.len()
    }

    /// Which workers are idle (parked, or about to park).
    pub closed spec fn idle_flags(&self) -> Seq<bool> {
        self.idle@
    }

    /// The spawned tasks; task `i` has identifier `i`.
    pub closed spec fn tasks(&self) -> Seq<Task<F>> {
        self.tasks@
    }

    /// Whether identifier `id` waits in the injector or in some worker's deque.
    pub open spec fn is_queued(&self, id: u64) -> bool {
        ||| self.injector().contains(id)
        ||| exists|w: int| 0 <= w < self.spec_num_workers() && #[trigger] self.local(w).contains(id)
    }

    /// The injector and every worker deque hold the same identifiers in `self` and `other`.
    pub open spec fn same_queues(&self, other: &Self) -> bool {
        &&& self.injector() == other.injector()
        &&& self.spec_num_workers() == other.spec_num_workers()
        &&& forall|w: int| 0 <= w < self.spec_num_workers() ==> #[trigger] self.local(w) == other.local(w)
    }

    /// The identifiers waiting in all queues together, counted with multiplicity.
    pub closed spec fn queued_items(&self) -> Multiset<u64> {
        injector_items(self.injector).to_multiset().add(deques_items(self.locals@))
    }

    /// Popping the head of worker `me`'s deque removes one copy of it from the queues.
    proof fn lemma_items_pop(a: Self, b: Self, me: int)
        requires
            0 <= me < a.locals@.len(),
            b.injector == a.injector,
            b.locals@ == a.locals@.update(me, b.locals@[me]),
            a.local(me).len() > 0,
            b.local(me) == a.local(me).drop_first(),
        ensures
            b.queued_items().insert(a.local(me)[0]) =~= a.queued_items(),
    {
        broadcast use vstd::multiset::group_multiset_axioms;
        broadcast use vstd::seq_lib::group_to_multiset_ensures;

        lemma_deques_items_update(a.locals@, me, b.locals@[me]);
        assert(a.local(me).remove(0) =~= b.local(me));
        assert(a.local(me).to_multiset() =~= b.local(me).to_multiset().insert(a.local(me)[0]));
        assert(a.local(me) == deque_items(a.locals@[me]));
        assert(b.local(me) == deque_items(b.locals@[me]));
        assert(b.injector() == a.injector());
        let upd_l = deques_items(b.locals@).add(deque_items(a.locals@[me]).to_multiset());
        let upd_r = deques_items(a.locals@).add(deque_items(b.locals@[me]).to_multiset());
        assert forall|v: u64| #[trigger] b.queued_items().insert(a.local(me)[0]).count(v)
            == a.queued_items().count(v) by {
            assert(upd_l.count(v) == upd_r.count(v));
        }
    }

    /// Replacing worker `me`'s deque by one with the same identifiers keeps the queues'
    /// contents.
    proof fn lemma_items_same_deque(a: Self, b: Self, me: int)
        requires
            0 <= me < a.locals@.len(),
            injector_items(b.injector) == injector_items(a.injector),
            b.locals@ == a.locals@.update(me, b.locals@[me]),
            b.local(me) == a.local(me),
        ensures
            b.queued_items() =~= a.queued_items(),
    {
        broadcast use vstd::multiset::group_multiset_axioms;

        lemma_deques_items_update(a.locals@, me, b.locals@[me]);
        assert(a.local(me) == deque_items(a.locals@[me]));
        assert(b.local(me) == deque_items(b.locals@[me]));
        let upd_l = deques_items(b.locals@).add(deque_items(a.locals@[me]).to_multiset());
        let upd_r = deques_items(a.locals@).add(deque_items(b.locals@[me]).to_multiset());
        assert forall|v: u64| #[trigger] b.queued_items().count(v) == a.queued_items().count(v) by {
            assert(upd_l.count(v) == upd_r.count(v));
        }
    }

    /// Moving the injector's head to the back of worker `me`'s deque keeps the queues'
    /// contents.
    proof fn lemma_items_move_head(a: Self, b: Self, me: int)
        requires
            0 <= me < a.locals@.len(),
            a.injector().len() > 0,
            b.injector() == a.injector().drop_first(),
            b.locals@ == a.locals@.update(me, b.locals@[me]),
            b.local(me) == a.local(me).push(a.injector()[0]),
        ensures
            b.queued_items() =~= a.queued_items(),
    {
        broadcast use vstd::multiset::group_multiset_axioms;
        broadcast use vstd::seq_lib::group_to_multiset_ensures;

        lemma_deques_items_update(a.locals@, me, b.locals@[me]);
        assert(a.injector().remove(0) =~= b.injector());
        assert(a.injector().to_multiset() =~= b.injector().to_multiset().insert(a.injector()[0]));
        assert(a.local(me) == deque_items(a.locals@[me]));
        assert(b.local(me) == deque_items(b.locals@[me]));
        assert(b.local(me).to_multiset() =~= a.local(me).to_multiset().insert(a.injector()[0]));
        let upd_l = deques_items(b.locals@).add(deque_items(a.locals@[me]).to_multiset());
        let upd_r = deques_items(a.locals@).add(deque_items(b.locals@[me]).to_multiset());
        assert forall|v: u64| #[trigger] b.queued_items().count(v) == a.queued_items().count(v) by {
            assert(upd_l.count(v) == upd_r.count(v));
        }
    }

    /// Moving a prefix of worker `v`'s deque to the back of worker `me`'s deque keeps
    /// the queues' contents.
    proof fn lemma_items_move_batch(a: Self, b: Self, v: int, me: int, k: int)
        requires
            0 <= v < a.locals@.len(),
            0 <= me < a.locals@.len(),
            v != me,
            0 <= k <= a.local(v).len(),
            b.injector == a.injector,
            b.locals@ == a.locals@.update(v, b.locals@[v]).update(me, b.locals@[me]),
            b.local(v) == a.local(v).subrange(k, a.local(v).len() as int),
            b.local(me) == a.local(me).add(a.local(v).subrange(0, k)),
        ensures
            b.queued_items() =~= a.queued_items(),
    {
        broadcast use vstd::multiset::group_multiset_axioms;
        broadcast use vstd::seq_lib::group_to_multiset_ensures;

        let mid = a.locals@.update(v, b.locals@[v]);
        lemma_deques_items_update(a.locals@, v, b.locals@[v]);
        lemma_deques_items_update(mid, me, b.locals@[me]);
        let pre = a.local(v).subrange(0, k);
        let rest = a.local(v).subrange(k, a.local(v).len() as int);
        assert(a.local(v) =~= pre + rest);
        vstd::seq_lib::lemma_multiset_commutative(pre, rest);
        vstd::seq_lib::lemma_multiset_commutative(a.local(me), pre);
        assert(mid[me] == a.locals@[me]);
        assert(mid.update(me, b.locals@[me]) == b.locals@);
        assert(a.local(me) == deque_items(a.locals@[me]));
        assert(a.local(v) == deque_items(a.locals@[v]));
        assert(b.local(me) == deque_items(b.locals@[me]));
        assert(b.local(v) == deque_items(b.locals@[v]));
        assert(b.injector() == a.injector());
        let u1_l = deques_items(mid).add(deque_items(a.locals@[v]).to_multiset());
        let u1_r = deques_items(a.locals@).add(deque_items(b.locals@[v]).to_multiset());
        let u2_l = deques_items(b.locals@).add(deque_items(mid[me]).to_multiset());
        let u2_r = deques_items(mid).add(deque_items(b.locals@[me]).to_multiset());
        assert forall|x: u64| #[trigger] b.queued_items().count(x) == a.queued_items().count(x) by {
            assert(u1_l.count(x) == u1_r.count(x));
            assert(u2_l.count(x) == u2_r.count(x));
            assert((pre + rest).to_multiset().count(x) == pre.to_multiset().count(x) + rest.to_multiset().count(x));
            assert((a.local(me) + pre).to_multiset().count(x) == a.local(me).to_multiset().count(x)
                + pre.to_multiset().count(x));
        }
    }

    /// How many identifiers wait in all queues together.
    pub closed spec fn queued_len(&self) -> nat {
        injector_items(self.injector).len() + deques_len(self.locals@)
    }

    /// The scheduler's invariant: between one and `MAX_WORKERS` workers, each with
    /// an unshared FIFO deque and an idle flag; queued identifiers name spawned tasks;
    /// task `i` has identifier `i` and is well formed.
    pub open spec fn wf(&self) -> bool {
        &&& 1 <= self.spec_num_workers() <= MAX_WORKERS
        &&& self.idle_flags().len() == self.spec_num_workers()
        &&& forall|w: int|
            0 <= w < self.spec_num_workers() ==> deque_is_fifo(#[trigger] self.deque(w))
                && deque_unshared(self.deque(w))
        &&& forall|i: int|
            0 <= i < self.injector().len() ==> #[trigger] self.injector()[i] < self.tasks().len()
        &&& forall|w: int, i: int|
            0 <= w < self.spec_num_workers() && 0 <= i < self.local(w).len() ==> #[trigger] self.local(
                w,
            )[i] < self.tasks().len()
        &&& forall|i: int|
            0 <= i < self.tasks().len() ==> (#[trigger] self.tasks()[i]).wf() && self.tasks()[i].spec_id()
                == i
    }

    /// Changing idle flags alone keeps the invariant.
    proof fn lemma_wf_idle_change(a: Self, b: Self)
        requires
            a.wf(),
            b.injector == a.injector,
            b.locals@ == a.locals@,
            b.tasks@ == a.tasks@,
            b.idle@.len() == a.idle@.len(),
        ensures
            b.wf(),
            b.same_queues(&a),
    {
        assert(b.injector() == a.injector());
        assert(forall|w: int| 0 <= w < b.locals@.len() ==> #[trigger] b.deque(w) == a.deque(w));
        assert(forall|w: int| 0 <= w < b.locals@.len() ==> #[trigger] b.local(w) == a.local(w));
        assert(b.tasks() == a.tasks());
    }

    /// Pushing identifier `id` of a spawned task onto the injector keeps the invariant
    /// and every queued identifier queued.
    proof fn lemma_injector_push(a: Self, b: Self, id: u64)
        requires
            a.wf(),
            id < a.tasks@.len(),
            b.injector() == a.injector().push(id),
            b.locals@ == a.locals@,
            b.tasks@ == a.tasks@,
            b.idle@.len() == a.idle@.len(),
        ensures
            b.wf(),
            forall|x: u64| a.is_queued(x) ==> b.is_queued(x),
            forall|x: u64| b.is_queued(x) ==> a.is_queued(x) || x == id,
            b.is_queued(id),
    {
        assert forall|x: u64| b.is_queued(x) implies a.is_queued(x) || x == id by {
            if b.injector().contains(x) {
                let i = choose|i: int| 0 <= i < b.injector().len() && b.injector()[i] == x;
                if i < a.injector().len() {
                    assert(a.injector()[i] == x);
                }
            } else {
                let w = choose|w: int|
                    0 <= w < b.spec_num_workers() && #[trigger] b.local(w).contains(x);
                assert(b.local(w) == a.local(w));
                assert(a.local(w).contains(x));
            }
        }
        assert(forall|w: int| 0 <= w < b.locals@.len() ==> #[trigger] b.deque(w) == a.deque(w));
        assert(forall|w: int| 0 <= w < b.locals@.len() ==> #[trigger] b.local(w) == a.local(w));
        assert(b.tasks() == a.tasks());
        assert(b.injector()[a.injector().len() as int] == id);
        assert forall|x: u64| a.is_queued(x) implies b.is_queued(x) by {
            if a.injector().contains(x) {
                let i = choose|i: int| 0 <= i < a.injector().len() && a.injector()[i] == x;
                assert(b.injector()[i] == x);
            } else {
                let w = choose|w: int|
                    0 <= w < a.spec_num_workers() && #[trigger] a.local(w).contains(x);
                assert(b.local(w).contains(x));
            }
        }
    }

    /// The identifiers worker `w` tries before stealing, in the order it tries them:
    /// its own deque, then the injector.
    pub open spec fn own_work(&self, w: int) -> Seq<u64> {
        self.local(w).add(self.injector())
    }

    /// Whether task `x` exists and is idle, so a worker can claim it.
    pub open spec fn runnable(&self, x: u64) -> bool {
        x < self.tasks().len() && self.tasks()[x as int].spec_state() == TaskState::Idle
    }

    /// Queues with the same contents queue the same identifiers.
    proof fn lemma_same_queues(a: Self, b: Self)
        requires
            b.same_queues(&a),
        ensures
            forall|x: u64| #[trigger] a.is_queued(x) == b.is_queued(x),
    {
        assert forall|x: u64| #[trigger] a.is_queued(x) == b.is_queued(x) by {
            if !a.injector().contains(x) {
                if a.is_queued(x) {
                    let w = choose|w: int|
                        0 <= w < a.spec_num_workers() && #[trigger] a.local(w).contains(x);
                    assert(b.local(w).contains(x));
                }
                if b.is_queued(x) {
                    let w = choose|w: int|
                        0 <= w < b.spec_num_workers() && #[trigger] b.local(w).contains(x);
                    assert(a.local(w).contains(x));
                }
            }
        }
    }

    /// Replacing task `id` by a well-formed task with the same identifier keeps the
    /// invariant and the queues.
    proof fn lemma_task_change(a: Self, b: Self, id: int)
        requires
            a.wf(),
            0 <= id < a.tasks@.len(),
            b.injector == a.injector,
            b.locals@ == a.locals@,
            b.idle@ == a.idle@,
            b.tasks@.len() == a.tasks@.len(),
            forall|i: int| 0 <= i < a.tasks@.len() && i != id ==> #[trigger] b.tasks@[i] == a.tasks@[i],
            b.tasks@[id].wf(),
            b.tasks@[id].spec_id() == id,
        ensures
            b.wf(),
            b.same_queues(&a),
            forall|x: u64| #[trigger] a.is_queued(x) == b.is_queued(x),
    {
        assert(forall|w: int| 0 <= w < b.locals@.len() ==> #[trigger] b.deque(w) == a.deque(w));
        assert forall|i: int| 0 <= i < b.tasks().len() implies (#[trigger] b.tasks()[i]).wf()
            && b.tasks()[i].spec_id() == i by {
            if i != id {
                assert(b.tasks@[i] == a.tasks@[i]);
                assert(a.tasks()[i].wf());
            }
        }
        assert(b.injector() == a.injector());
        assert(forall|w: int| 0 <= w < b.locals@.len() ==> #[trigger] b.deque(w) == a.deque(w));
        assert(forall|w: int| 0 <= w < b.locals@.len() ==> #[trigger] b.local(w) == a.local(w));
        Self::lemma_same_queues(a, b);
    }

    /// Changing only the queues keeps the invariant when every identifier queued
    /// afterwards was queued before.
    proof fn lemma_wf_queues_shrink(a: Self, b: Self)
        requires
            a.wf(),
            b.tasks@ == a.tasks@,
            b.idle@.len() == a.idle@.len(),
            b.locals@.len() == a.locals@.len(),
            forall|w: int|
                0 <= w < b.locals@.len() ==> #[trigger] b.locals@[w] == a.locals@[w] || (
                deque_is_fifo(b.locals@[w]) && deque_unshared(b.locals@[w])),
            forall|x: u64| b.is_queued(x) ==> a.is_queued(x),
        ensures
            b.wf(),
    {
        assert(b.tasks() == a.tasks());
        assert forall|w: int| 0 <= w < b.spec_num_workers() implies deque_is_fifo(#[trigger] b.deque(w))
            && deque_unshared(b.deque(w)) by {
            if b.locals@[w] == a.locals@[w] {
                assert(a.deque(w) == b.deque(w));
            }
        }
        assert forall|x: u64| a.is_queued(x) implies x < a.tasks@.len() by {
            if a.injector().contains(x) {
                let i = choose|i: int| 0 <= i < a.injector().len() && a.injector()[i] == x;
                assert(a.injector()[i] < a.tasks@.len());
            } else {
                let w = choose|w: int|
                    0 <= w < a.spec_num_workers() && #[trigger] a.local(w).contains(x);
                let i = choose|i: int| 0 <= i < a.local(w).len() && a.local(w)[i] == x;
                assert(a.local(w)[i] < a.tasks@.len());
            }
        }
        assert forall|i: int| 0 <= i < b.injector().len() implies #[trigger] b.injector()[i] < b.tasks@.len() by {
            assert(b.injector().contains(b.injector()[i]));
            assert(b.is_queued(b.injector()[i]));
        }
        assert forall|w: int, i: int|
            0 <= w < b.locals@.len() && 0 <= i < b.local(w).len() implies #[trigger] b.local(w)[i]
                < b.tasks@.len() by {
            assert(b.local(w).contains(b.local(w)[i]));
            assert(b.is_queued(b.local(w)[i]));
        }
    }

    /// Popping the head of worker `me`'s deque leaves every other identifier queued.
    proof fn lemma_pop_local(a: Self, b: Self, me: int)
        requires
            0 <= me < a.spec_num_workers(),
            b.spec_num_workers() == a.spec_num_workers(),
            b.injector() == a.injector(),
            forall|w: int| 0 <= w < a.spec_num_workers() && w != me ==> #[trigger] b.local(w) == a.local(w),
            a.local(me).len() > 0,
            b.local(me) == a.local(me).drop_first(),
        ensures
            forall|x: u64| a.is_queued(x) && x != a.local(me)[0] ==> b.is_queued(x),
            forall|x: u64| b.is_queued(x) ==> a.is_queued(x),
    {
        assert forall|x: u64| b.is_queued(x) implies a.is_queued(x) by {
            if !b.injector().contains(x) {
                let w = choose|w: int|
                    0 <= w < b.spec_num_workers() && #[trigger] b.local(w).contains(x);
                let i = choose|i: int| 0 <= i < b.local(w).len() && b.local(w)[i] == x;
                if w == me {
                    assert(a.local(me)[i + 1] == x);
                } else {
                    assert(a.local(w)[i] == x);
                }
                assert(a.local(w).contains(x));
            }
        }
        assert forall|x: u64| a.is_queued(x) && x != a.local(me)[0] implies b.is_queued(x) by {
            if !a.injector().contains(x) {
                let w = choose|w: int|
                    0 <= w < a.spec_num_workers() && #[trigger] a.local(w).contains(x);
                if w == me {
                    let i = choose|i: int| 0 <= i < a.local(me).len() && a.local(me)[i] == x;
                    assert(b.local(me)[i - 1] == x);
                    assert(b.local(me).contains(x));
                } else {
                    assert(b.local(w).contains(x));
                }
            }
        }
    }

    /// Moving the injector's head to the back of worker `me`'s deque leaves every
    /// identifier queued.
    proof fn lemma_move_injector_head(a: Self, b: Self, me: int)
        requires
            0 <= me < a.spec_num_workers(),
            b.spec_num_workers() == a.spec_num_workers(),
            a.injector().len() > 0,
            b.injector() == a.injector().drop_first(),
            forall|w: int| 0 <= w < a.spec_num_workers() && w != me ==> #[trigger] b.local(w) == a.local(w),
            b.local(me) == a.local(me).push(a.injector()[0]),
        ensures
            forall|x: u64| a.is_queued(x) ==> b.is_queued(x),
            forall|x: u64| b.is_queued(x) ==> a.is_queued(x),
    {
        assert forall|x: u64| b.is_queued(x) implies a.is_queued(x) by {
            if b.injector().contains(x) {
                let i = choose|i: int| 0 <= i < b.injector().len() && b.injector()[i] == x;
                assert(a.injector()[i + 1] == x);
                assert(a.injector().contains(x));
            } else {
                let w = choose|w: int|
                    0 <= w < b.spec_num_workers() && #[trigger] b.local(w).contains(x);
                let i = choose|i: int| 0 <= i < b.local(w).len() && b.local(w)[i] == x;
                if w == me && i == a.local(me).len() {
                    assert(a.injector()[0] == x);
                    assert(a.injector().contains(x));
                } else {
                    assert(a.local(w)[i] == x);
                    assert(a.local(w).contains(x));
                }
            }
        }
        assert forall|x: u64| a.is_queued(x) implies b.is_queued(x) by {
            if a.injector().contains(x) {
                let i = choose|i: int| 0 <= i < a.injector().len() && a.injector()[i] == x;
                if i == 0 {
                    assert(b.local(me)[a.local(me).len() as int] == x);
                    assert(b.local(me).contains(x));
                } else {
                    assert(b.injector()[i - 1] == x);
                }
            } else {
                let w = choose|w: int|
                    0 <= w < a.spec_num_workers() && #[trigger] a.local(w).contains(x);
                let i = choose|i: int| 0 <= i < a.local(w).len() && a.local(w)[i] == x;
                assert(b.local(w)[i] == x);
                assert(b.local(w).contains(x));
            }
        }
    }

    /// Moving a prefix of worker `v`'s deque to the back of worker `me`'s deque
    /// leaves every identifier queued.
    proof fn lemma_move_batch(a: Self, b: Self, v: int, me: int, n: int)
        requires
            0 <= v < a.spec_num_workers(),
            0 <= me < a.spec_num_workers(),
            v != me,
            0 < n <= a.local(v).len(),
            b.spec_num_workers() == a.spec_num_workers(),
            b.injector() == a.injector(),
            forall|w: int|
                0 <= w < a.spec_num_workers() && w != me && w != v ==> #[trigger] b.local(w) == a.local(w),
            b.local(v) == a.local(v).subrange(n, a.local(v).len() as int),
            b.local(me) == a.local(me).add(a.local(v).subrange(0, n)),
        ensures
            forall|x: u64| a.is_queued(x) ==> b.is_queued(x),
            forall|x: u64| b.is_queued(x) ==> a.is_queued(x),
    {
        assert forall|x: u64| b.is_queued(x) implies a.is_queued(x) by {
            if !b.injector().contains(x) {
                let w = choose|w: int|
                    0 <= w < b.spec_num_workers() && #[trigger] b.local(w).contains(x);
                let i = choose|i: int| 0 <= i < b.local(w).len() && b.local(w)[i] == x;
                if w == me && i >= a.local(me).len() {
                    assert(a.local(v)[i - a.local(me).len()] == x);
                    assert(a.local(v).contains(x));
                } else if w == v {
                    assert(a.local(v)[i + n] == x);
                    assert(a.local(v).contains(x));
                } else {
                    assert(a.local(w)[i] == x);
                    assert(a.local(w).contains(x));
                }
            }
        }
        assert forall|x: u64| a.is_queued(x) implies b.is_queued(x) by {
            if !a.injector().contains(x) {
                let w = choose|w: int|
                    0 <= w < a.spec_num_workers() && #[trigger] a.local(w).contains(x);
                let i = choose|i: int| 0 <= i < a.local(w).len() && a.local(w)[i] == x;
                if w == v {
                    if i < n {
                        assert(b.local(me)[a.local(me).len() + i] == x);
                        assert(b.local(me).contains(x));
                    } else {
                        assert(b.local(v)[i - n] == x);
                        assert(b.local(v).contains(x));
                    }
                } else {
                    assert(b.local(w)[i] == x);
                    assert(b.local(w).contains(x));
                }
            }
        }
    }

    /// The number of workers.
    pub fn num_workers(&self) -> (n: usize)
        ensures
            n == self.spec_num_workers(),
    {
        self.locals.len()
    }

    /// The number of task identifiers waiting in the injector.
    pub fn injector_len(&self) -> (n: usize)
        ensures
            n == self.injector().len(),
    {
        injector_len(&self.injector)
    }

    /// The number of spawned tasks.
    pub fn task_count(&self) -> (n: usize)
        ensures
            n == self.tasks().len(),
    {
        self.tasks.len()
    }

    /// The lifecycle state of task `id`.
    pub fn task_state(&self, id: u64) -> (s: TaskState)
        requires
            id < self.tasks().len(),
        ensures
            s == self.tasks()[id as int].spec_state(),
    {
        let n = self.tasks.len();
        assert(id < n);
        self.tasks[id as usize].state()
    }

    /// Attempts to unpark one idle worker: the lowest-numbered idle worker is marked
    /// busy and returned, so that the caller wakes its thread. `None` when every
    /// worker is already busy.
    pub fn try_unpark_one(&mut self) -> (r: Option<usize>)
        requires
            old(self).wf(),
        ensures
            final(self).wf(),
            r matches Some(k) ==> unpark_target(old(self).idle_flags()) == Some(k as int),
            r is None ==> unpark_target(old(self).idle_flags()) is None,
            final(self).idle_flags() == after_unpark(old(self).idle_flags()),
            final(self).same_queues(old(self)),
            final(self).queued_items() == old(self).queued_items(),
            final(self).tasks() == old(self).tasks(),
    {
        let n = self.idle.len();
        let mut i: usize = 0;
        while i < n
            invariant
                n == self.idle@.len(),
                i <= n,
                *self == *old(self),
                self.wf(),
                forall|j: int| 0 <= j < i ==> !#[trigger] self.idle@[j],
            decreases n - i,
        {
            if self.idle[i] {
                proof {
                    lemma_unpark_target_is(self.idle@, i as int);
                }
                let ghost before = *self;
                self.idle.set(i, false);
                proof {
                    Self::lemma_wf_idle_change(before, *self);
                }
                return Some(i);
            }
            i = i + 1;
        }
        proof {
            if exists|k: int| 0 <= k < self.idle@.len() && #[trigger] self.idle@[k] {
                let k = choose|k: int| 0 <= k < self.idle@.len() && #[trigger] self.idle@[k];
                assert(!self.idle@[k]);
            }
        }
        None
    }

    /// Creates a task for `future` under the next identifier and enqueues it.
    ///
    /// Returns the new identifier and, as `enqueue` does, the worker to unpark.
    pub fn spawn(&mut self, future: F) -> (r: (u64, Option<usize>))
        requires
            old(self).wf(),
            old(self).tasks().len() < u64::MAX,
        ensures
            final(self).wf(),
            r.0 == old(self).tasks().len(),
            final(self).tasks().len() == old(self).tasks().len() + 1,
            forall|i: int|
                0 <= i < old(self).tasks().len() ==> #[trigger] final(self).tasks()[i] == old(
                    self,
                ).tasks()[i],
            final(self).tasks()[r.0 as int].spec_id() == r.0,
            final(self).tasks()[r.0 as int].spec_state() == TaskState::Idle,
            final(self).tasks()[r.0 as int].spec_future() == Some(future),
            !final(self).tasks()[r.0 as int].spec_notified(),
            final(self).injector() == old(self).injector().push(r.0),
            final(self).spec_num_workers() == old(self).spec_num_workers(),
            forall|w: int|
                0 <= w < old(self).spec_num_workers() ==> #[trigger] final(self).local(w) == old(
                    self,
                ).local(w),
            r.1 matches Some(k) ==> unpark_target(old(self).idle_flags()) == Some(k as int),
            r.1 is None ==> unpark_target(old(self).idle_flags()) is None,
            final(self).idle_flags() == after_unpark(old(self).idle_flags()),
    {
        let id = self.tasks.len() as u64;
        let task = Task::new(id, future);
        self.tasks.push(task);
        assert(self.injector() == old(self).injector());
        assert(forall|w: int| 0 <= w < self.locals@.len() ==> #[trigger] self.deque(w) == old(self).deque(w));
        assert(forall|w: int| 0 <= w < self.locals@.len() ==> #[trigger] self.local(w) == old(self).local(w));
        assert forall|i: int| 0 <= i < self.tasks().len() implies (#[trigger] self.tasks()[i]).wf()
            && self.tasks()[i].spec_id() == i by {
            if i < old(self).tasks().len() {
                assert(old(self).tasks()[i].wf());
            }
        }
        assert(self.wf());
        let unpark = self.enqueue(id);
        (id, unpark)
    }

    /// Enqueues task `id`: pushes it onto the injector and unparks one idle worker, if
    /// any. The returned worker is the lowest-numbered idle one, now marked busy, and
    /// the caller wakes its thread. Whenever some worker is idle, one is returned.
    pub fn enqueue(&mut self, id: u64) -> (r: Option<usize>)
        requires
            old(self).wf(),
            id < old(self).tasks().len(),
        ensures
            final(self).wf(),
            final(self).spec_num_workers() == old(self).spec_num_workers(),
            forall|w: int|
                0 <= w < old(self).spec_num_workers() ==> #[trigger] final(self).local(w) == old(
                    self,
                ).local(w),
            final(self).tasks() == old(self).tasks(),
            final(self).injector() == old(self).injector().push(id),
            r matches Some(k) ==> unpark_target(old(self).idle_flags()) == Some(k as int),
            r is None ==> unpark_target(old(self).idle_flags()) is None,
            final(self).idle_flags() == after_unpark(old(self).idle_flags()),
            (exists|k: int|
                0 <= k < old(self).spec_num_workers() && #[trigger] old(self).idle_flags()[k])
                ==> r is Some,
            final(self).is_queued(id),
            final(self).queued_items() == old(self).queued_items().insert(id),
            forall|x: u64| old(self).is_queued(x) ==> final(self).is_queued(x),
            forall|x: u64| final(self).is_queued(x) ==> old(self).is_queued(x) || x == id,
    {
        let ghost start = *self;
        injector_push(&mut self.injector, id);
        proof {
            broadcast use vstd::multiset::group_multiset_axioms;
            broadcast use vstd::seq_lib::group_to_multiset_ensures;

            Self::lemma_injector_push(start, *self, id);
            assert(self.queued_items() =~= start.queued_items().insert(id));
        }
        let ghost mid = *self;
        let r = self.try_unpark_one();
        proof {
            assert(forall|w: int| 0 <= w < self.locals@.len() ==> #[trigger] self.local(w) == mid.local(w));
            ExecutorHandle::lemma_same_queues(mid, *self);
            if exists|k: int| 0 <= k < old(self).spec_num_workers() && #[trigger] old(self).idle_flags()[k] {
                let k = choose|k: int| 0 <= k < old(self).spec_num_workers() && #[trigger] old(self).idle_flags()[k];
                lemma_unpark_target(old(self).idle_flags(), k);
            }
        }
        r
    }

    /// Records that a worker has polled task `id`'s `future` with the given outcome.
    ///
    /// When the task was woken during the poll and the poll was pending, the task is
    /// queued again as `enqueue` does, and the worker to unpark, if any, is returned.
    pub fn poll_task(&mut self, id: u64, future: F, status: PollStatus) -> (r: Option<usize>)
        requires
            old(self).wf(),
            id < old(self).tasks().len(),
        ensures
            final(self).wf(),
            final(self).spec_num_workers() == old(self).spec_num_workers(),
            forall|w: int|
                0 <= w < old(self).spec_num_workers() ==> #[trigger] final(self).local(w) == old(
                    self,
                ).local(w),
            final(self).tasks().len() == old(self).tasks().len(),
            forall|i: int|
                0 <= i < old(self).tasks().len() && i != id ==> #[trigger] final(self).tasks()[i]
                    == old(self).tasks()[i],
            final(self).tasks()[id as int].spec_id() == id,
            (final(self).tasks()[id as int].spec_state(), final(self).tasks()[id as int].spec_future())
                == record_poll(future, status),
            !final(self).tasks()[id as int].spec_notified(),
            requeue_after_poll(old(self).tasks()[id as int].spec_notified(), status) ==> {
                &&& final(self).injector() == old(self).injector().push(id)
                &&& r matches Some(k) ==> unpark_target(old(self).idle_flags()) == Some(k as int)
                &&& r is None ==> unpark_target(old(self).idle_flags()) is None
                &&& final(self).idle_flags() == after_unpark(old(self).idle_flags())
            },
            !requeue_after_poll(old(self).tasks()[id as int].spec_notified(), status) ==> {
                &&& r is None
                &&& final(self).injector() == old(self).injector()
                &&& final(self).idle_flags() == old(self).idle_flags()
            },
    {
        let n = self.tasks.len();
        assert(id < n);
        let ghost before = *self;
        let requeue = self.tasks[id as usize].poll(future, status);
        proof {
            ExecutorHandle::lemma_task_change(before, *self, id as int);
        }
        if requeue {
            self.enqueue(id)
        } else {
            None
        }
    }

    /// Marks worker `w` busy again after its thread was unparked.
    pub fn resume(&mut self, w: usize)
        requires
            old(self).wf(),
            w < old(self).spec_num_workers(),
        ensures
            final(self).wf(),
            final(self).same_queues(old(self)),
            final(self).tasks() == old(self).tasks(),
            final(self).idle_flags() == old(self).idle_flags().update(w as int, false),
    {
        let ghost before = *self;
        self.idle.set(w, false);
        proof {
            Self::lemma_wf_idle_change(before, *self);
        }
    }
}

/// `rand::random::<u32>()`: a random number from the thread-local generator;
/// nothing is claimed of its value.
#[verifier::external_body]
fn random_u32() -> u32 {
    rand::random::<u32>()
}

/// What a worker does next.
pub enum WorkerStep<F> {
    /// Poll task `id`, whose future it has claimed.
    Run(u64, F),
    /// No task is at hand: park the thread until it is unparked.
    Park,
}

/// A worker thread's identity: its index among the executor's workers.
pub struct Worker {
    pub id: usize,
}

/// Task `b` is task `a`, except that a wake-up may have been recorded on it, which
/// happens only to a task that is being polled and was queued (`queued`).
pub open spec fn wake_recorded<F>(a: Task<F>, b: Task<F>, queued: bool) -> bool {
    &&& b.spec_id() == a.spec_id()
    &&& b.spec_state() == a.spec_state()
    &&& b.spec_future() == a.spec_future()
    &&& a.spec_notified() ==> b.spec_notified()
    &&& b.spec_notified() && !a.spec_notified() ==> a.spec_state() == TaskState::Polling && queued
}

/// The tasks of `b` are those of `a`, except for wake-ups recorded on queued tasks
/// that are being polled.
pub open spec fn only_wakes_recorded<F>(a: ExecutorHandle<F>, b: ExecutorHandle<F>) -> bool {
    &&& b.tasks().len() == a.tasks().len()
    &&& forall|i: int|
        0 <= i < a.tasks().len() ==> wake_recorded(
            a.tasks()[i],
            #[trigger] b.tasks()[i],
            a.is_queued(i as u64),
        )
}

/// Whether `id` is the first runnable task in worker `v`'s deque in `h`.
pub open spec fn first_runnable_in<F>(h: ExecutorHandle<F>, v: int, id: u64) -> bool {
    exists|p: int|
        0 <= p < h.local(v).len() && h.local(v)[p] == id && h.runnable(id) && forall|j: int|
            0 <= j < p ==> !#[trigger] h.runnable(h.local(v)[j])
}

/// Whether, from `before` to `after`, worker `me` took `id` out of a batch stolen from
/// worker `v`: the front `c` entries of `v`'s deque were taken off it, `id` stands at
/// index `p` among them with no runnable task ahead of it, and the rest of the batch,
/// after `id`, is `me`'s deque, in order.
pub open spec fn claimed_from_batch<F>(
    before: ExecutorHandle<F>,
    after: ExecutorHandle<F>,
    me: int,
    v: int,
    p: int,
    c: int,
    id: u64,
) -> bool {
    &&& 0 <= v < before.spec_num_workers()
    &&& v != me
    &&& 0 <= p < c <= before.local(v).len()
    &&& before.local(v)[p] == id
    &&& forall|j: int| 0 <= j < p ==> !#[trigger] before.runnable(before.local(v)[j])
    &&& after.local(v) == before.local(v).subrange(c, before.local(v).len() as int)
    &&& after.local(me) == before.local(v).subrange(p + 1, c)
}

/// Whether worker `w`'s deque in `after` is what is left of it in `before` once a
/// front part was taken off.
pub open spec fn lost_front<F>(before: ExecutorHandle<F>, after: ExecutorHandle<F>, w: int) -> bool {
    exists|c: int|
        0 <= c <= before.local(w).len() && #[trigger] before.local(w).subrange(
            c,
            before.local(w).len() as int,
        ) == after.local(w)
}

/// The worker tried `i`-th by a steal round over `n` workers that starts at `start`.
pub open spec fn rotation(start: int, i: int, n: int) -> int {
    (start + i) % n
}

/// Whether, in `h`, every worker tried before the `i`-th by a steal round of worker
/// `me` starting at `start` is `me` itself or has an empty deque.
pub open spec fn tried_empty<F>(h: ExecutorHandle<F>, me: int, start: int, i: int) -> bool {
    forall|j: int|
        0 <= j < i ==> #[trigger] rotation(start, j, h.spec_num_workers() as int) == me || h.local(
            rotation(start, j, h.spec_num_workers() as int),
        ).len() == 0
}

impl Worker {
    /// Steals a batch of tasks from another worker into this worker's deque.
    ///
    /// Tries the workers in turn, starting at `start` and wrapping around, skips
    /// itself, and stops at the first one whose deque is not empty: a non-empty prefix
    /// of that deque moves, in order, to the back of this worker's deque, and that
    /// worker is returned. Returns `None`, changing nothing, when every other worker's
    /// deque is empty.
    pub fn steal<F>(&self, exec: &mut ExecutorHandle<F>, start: usize) -> (victim: Option<usize>)
        requires
            old(exec).wf(),
            self.id < old(exec).spec_num_workers(),
            start < old(exec).spec_num_workers(),
        ensures
            final(exec).wf(),
            final(exec).spec_num_workers() == old(exec).spec_num_workers(),
            final(exec).tasks() == old(exec).tasks(),
            final(exec).idle_flags() == old(exec).idle_flags(),
            final(exec).injector() == old(exec).injector(),
            final(exec).queued_len() == old(exec).queued_len(),
            final(exec).queued_items() == old(exec).queued_items(),
            forall|x: u64| #[trigger] final(exec).is_queued(x) == old(exec).is_queued(x),
            victim is None ==> {
                &&& forall|w: int|
                    0 <= w < old(exec).spec_num_workers() && w != self.id ==> #[trigger] old(exec).local(w).len() == 0
                &&& forall|w: int|
                    0 <= w < old(exec).spec_num_workers() ==> #[trigger] final(exec).local(w) == old(exec).local(w)
            },
            victim matches Some(v) ==> {
                &&& v < old(exec).spec_num_workers()
                &&& v != self.id
                &&& old(exec).local(v as int).len() > 0
                &&& exists|i: int|
                    0 <= i < old(exec).spec_num_workers() && v == rotation(
                        start as int,
                        i,
                        old(exec).spec_num_workers() as int,
                    ) && #[trigger] tried_empty(*old(exec), self.id as int, start as int, i)
                &&& exists|k: int|
                    0 < k <= old(exec).local(v as int).len() && #[trigger] final(exec).local(v as int)
                        == old(exec).local(v as int).subrange(
                        k,
                        old(exec).local(v as int).len() as int,
                    ) && final(exec).local(self.id as int) == old(exec).local(self.id as int).add(
                        old(exec).local(v as int).subrange(0, k),
                    )
                &&& forall|w: int|
                    0 <= w < old(exec).spec_num_workers() && w != v && w != self.id ==> #[trigger] final(exec).local(w) == old(exec).local(w)
            },
    {
        let me = self.id;
        let n = exec.locals.len();
        let mut i: usize = 0;
        let mut found: Option<usize> = None;
        let ghost mut found_at: int = 0;
        while i < n && found.is_none()
            invariant
                exec.wf(),
                me == self.id,
                me < n,
                start < n,
                i <= n,
                n == exec.locals@.len(),
                n == old(exec).spec_num_workers(),
                n <= MAX_WORKERS,
                exec.tasks@ == old(exec).tasks@,
                exec.idle@ == old(exec).idle@,
                exec.injector() == old(exec).injector(),
                exec.queued_len() == old(exec).queued_len(),
                exec.queued_items() == old(exec).queued_items(),
                forall|x: u64| #[trigger] exec.is_queued(x) == old(exec).is_queued(x),
                found is None ==> tried_empty(*old(exec), me as int, start as int, i as int),
                found is None ==> forall|w: int|
                    0 <= w < n ==> #[trigger] exec.local(w) == old(exec).local(w),
                found matches Some(v) ==> {
                    &&& v < n
                    &&& v != me
                    &&& old(exec).local(v as int).len() > 0
                    &&& 0 <= found_at < n
                    &&& v == rotation(start as int, found_at, n as int)
                    &&& tried_empty(*old(exec), me as int, start as int, found_at)
                    &&& exists|k: int|
                        0 < k <= old(exec).local(v as int).len() && #[trigger] exec.local(v as int)
                            == old(exec).local(v as int).subrange(
                            k,
                            old(exec).local(v as int).len() as int,
                        ) && exec.local(me as int) == old(exec).local(me as int).add(
                            old(exec).local(v as int).subrange(0, k),
                        )
                    &&& forall|w: int|
                        0 <= w < n && w != v && w != me ==> #[trigger] exec.local(w) == old(exec).local(w)
                },
            decreases n - i,
        {
            let idx = (start + i) % n;
            assert(idx == rotation(start as int, i as int, n as int));
            if idx != me {
                let ghost s4 = *exec;
                assert(deque_is_fifo(exec.deque(idx as int)) && deque_unshared(exec.deque(idx as int)));
                assert(deque_is_fifo(exec.deque(me as int)) && deque_unshared(exec.deque(me as int)));
                let outcome = deque_steal_batch(&mut exec.locals, idx, me);
                proof {
                    assert(forall|w: int| 0 <= w < n && w != me && w != idx ==> #[trigger] exec.local(w) == s4.local(w));
                    let mid = s4.locals@.update(idx as int, exec.locals@[idx as int]);
                    assert(exec.locals@ =~= mid.update(me as int, exec.locals@[me as int]));
                    lemma_deques_len_update(s4.locals@, idx as int, exec.locals@[idx as int]);
                    lemma_deques_len_update(mid, me as int, exec.locals@[me as int]);
                    if outcome == StealOutcome::Success {
                        let from = deque_items(s4.locals@[idx as int]);
                        let k = choose|k: int|
                            #![trigger from.subrange(0, k)]
                            0 < k <= from.len() && deque_items(exec.locals@[idx as int])
                                == from.subrange(k, from.len() as int) && deque_items(
                                exec.locals@[me as int],
                            ) == deque_items(s4.locals@[me as int]).add(from.subrange(0, k));
                        ExecutorHandle::lemma_move_batch(s4, *exec, idx as int, me as int, k);
                        ExecutorHandle::lemma_wf_queues_shrink(s4, *exec);
                        ExecutorHandle::lemma_items_move_batch(s4, *exec, idx as int, me as int, k);
                        assert(s4.local(idx as int) == old(exec).local(idx as int));
                        assert(s4.local(me as int) == old(exec).local(me as int));
                        assert(from == s4.local(idx as int));
                        assert(exec.local(idx as int) == deque_items(exec.locals@[idx as int]));
                        assert(exec.local(me as int) == deque_items(exec.locals@[me as int]));
                        assert(exec.local(idx as int) == old(exec).local(idx as int).subrange(
                            k,
                            old(exec).local(idx as int).len() as int,
                        ));
                        found_at = i as int;
                    } else {
                        assert(forall|w: int| 0 <= w < n ==> #[trigger] exec.local(w) == s4.local(w));
                        ExecutorHandle::lemma_same_queues(s4, *exec);
                        ExecutorHandle::lemma_wf_queues_shrink(s4, *exec);
                        assert(s4.local(idx as int).subrange(0, s4.local(idx as int).len() as int)
                            =~= s4.local(idx as int));
                        assert(s4.local(me as int).add(s4.local(idx as int).subrange(0, 0)) =~= s4.local(
                            me as int,
                        ));
                        ExecutorHandle::lemma_items_move_batch(s4, *exec, idx as int, me as int, 0);
                        assert(s4.local(idx as int) == old(exec).local(idx as int));
                        assert(old(exec).local(idx as int).len() == 0);
                    }
                }
                if outcome == StealOutcome::Success {
                    found = Some(idx);
                }
                proof {
                    assert forall|x: u64| #[trigger] exec.is_queued(x) == old(exec).is_queued(x) by {
                        assert(s4.is_queued(x) == old(exec).is_queued(x));
                    }
                }
            }
            proof {
                if found is None {
                    let nn = old(exec).spec_num_workers() as int;
                    assert forall|j: int| 0 <= j < i + 1 implies #[trigger] rotation(start as int, j, nn)
                        == me || old(exec).local(rotation(start as int, j, nn)).len() == 0 by {
                        if j < i {
                            assert(tried_empty(*old(exec), me as int, start as int, i as int));
                        } else {
                            assert(rotation(start as int, j, nn) == idx);
                        }
                    }
                    assert(tried_empty(*old(exec), me as int, start as int, i + 1));
                }
            }
            i = i + 1;
        }
        proof {
            if found is None {
                assert forall|w: int| 0 <= w < n && w != me implies #[trigger] old(exec).local(w).len() == 0 by {
                    let nn = n as int;
                    let j = if w >= start { w - start } else { w + nn - start };
                    if w >= start {
                        assert(w % nn == w) by (nonlinear_arith)
                            requires
                                0 <= w < nn,
                        ;
                    } else {
                        assert((w + nn) % nn == w) by (nonlinear_arith)
                            requires
                                0 <= w < nn,
                        ;
                    }
                    assert(rotation(start as int, j, nn) == w);
                }
            }
        }
        found
    }

    /// Searches for the next task this worker polls.
    ///
    /// In turn: the head of the worker's own deque (a task that is not idle is taken
    /// off the deque; one still being polled gets the wake-up recorded on it);
    /// otherwise the whole injector is moved into the deque; otherwise a batch is
    /// stolen from the other workers, tried from a random starting index; otherwise
    /// the worker marks itself idle and, after checking again that its deque and the
    /// injector are empty, parks. No idle task that was queued is lost: each stays
    /// queued unless it is the one claimed. Identifiers only ever leave the queues.
    pub fn run<F>(&self, exec: &mut ExecutorHandle<F>) -> (r: WorkerStep<F>)
        requires
            old(exec).wf(),
            self.id < old(exec).spec_num_workers(),
        ensures
            final(exec).wf(),
            final(exec).spec_num_workers() == old(exec).spec_num_workers(),
            final(exec).tasks().len() == old(exec).tasks().len(),
            r matches WorkerStep::Run(id, future) ==> {
                &&& old(exec).runnable(id)
                &&& old(exec).tasks()[id as int].spec_future() == Some(future)
                &&& final(exec).tasks()[id as int].spec_state() == TaskState::Polling
                &&& final(exec).tasks()[id as int].spec_future() is None
                &&& final(exec).tasks()[id as int].spec_id() == id
                &&& forall|i: int|
                    0 <= i < old(exec).tasks().len() && i != id ==> wake_recorded(
                        old(exec).tasks()[i],
                        #[trigger] final(exec).tasks()[i],
                        old(exec).is_queued(i as u64),
                    )
                &&& final(exec).idle_flags() == old(exec).idle_flags()
            },
            r is Park ==> {
                &&& only_wakes_recorded(*old(exec), *final(exec))
                &&& final(exec).injector().len() == 0
                &&& forall|w: int|
                    0 <= w < old(exec).spec_num_workers() ==> #[trigger] final(exec).local(w).len() == 0
                &&& final(exec).idle_flags() == old(exec).idle_flags().update(self.id as int, true)
            },
            r matches WorkerStep::Run(id, _) ==> old(exec).is_queued(id),
            (r is Park) <==> !(exists|x: u64| #[trigger] old(exec).is_queued(x) && old(exec).runnable(x)),
            forall|x: u64| final(exec).is_queued(x) ==> old(exec).is_queued(x),
            final(exec).queued_items().subset_of(old(exec).queued_items()),
            r matches WorkerStep::Run(id, _) ==> final(exec).queued_items().insert(id).subset_of(
                old(exec).queued_items(),
            ),
            (forall|i: int|
                0 <= i < old(exec).own_work(self.id as int).len() ==> !#[trigger] old(exec).runnable(
                    old(exec).own_work(self.id as int)[i],
                )) ==> (r matches WorkerStep::Run(id, _) ==> exists|v: int|
                0 <= v < old(exec).spec_num_workers() && v != self.id && #[trigger] first_runnable_in(
                    *old(exec),
                    v,
                    id,
                )),
            (forall|i: int|
                0 <= i < old(exec).own_work(self.id as int).len() ==> !#[trigger] old(exec).runnable(
                    old(exec).own_work(self.id as int)[i],
                )) ==> (r matches WorkerStep::Run(id, _) ==> {
                &&& final(exec).injector().len() == 0
                &&& exists|v: int, p: int, c: int| #[trigger]
                    claimed_from_batch(*old(exec), *final(exec), self.id as int, v, p, c, id)
                &&& forall|w: int|
                    0 <= w < old(exec).spec_num_workers() && w != self.id ==> #[trigger] lost_front(
                        *old(exec),
                        *final(exec),
                        w,
                    )
            }),
            forall|x: u64|
                old(exec).is_queued(x) && x < old(exec).tasks().len() && old(exec).tasks()[x as int].spec_state()
                    == TaskState::Polling ==> final(exec).is_queued(x) || final(exec).tasks()[x as int].spec_notified(),
            forall|x: u64|
                old(exec).is_queued(x) && old(exec).runnable(x) ==> final(exec).is_queued(x) || (
                match r {
                    WorkerStep::Run(id, _) => id == x,
                    WorkerStep::Park => false,
                }),
            forall|i: int|
                0 <= i < old(exec).own_work(self.id as int).len() && #[trigger] old(exec).runnable(
                    old(exec).own_work(self.id as int)[i],
                ) && (forall|j: int|
                    0 <= j < i ==> !#[trigger] old(exec).runnable(
                        old(exec).own_work(self.id as int)[j],
                    )) ==> {
                    &&& r matches WorkerStep::Run(id, _) && id == old(exec).own_work(self.id as int)[i]
                    &&& final(exec).own_work(self.id as int) == old(exec).own_work(
                        self.id as int,
                    ).subrange(i + 1, old(exec).own_work(self.id as int).len() as int)
                    &&& forall|w: int|
                        0 <= w < old(exec).spec_num_workers() && w != self.id ==> #[trigger] final(exec).local(w)
                            == old(exec).local(w)
                    &&& i < old(exec).local(self.id as int).len() ==> {
                        &&& final(exec).injector() == old(exec).injector()
                        &&& final(exec).local(self.id as int) == old(exec).local(self.id as int).subrange(
                            i + 1,
                            old(exec).local(self.id as int).len() as int,
                        )
                    }
                    &&& i >= old(exec).local(self.id as int).len() ==> {
                        &&& final(exec).injector().len() == 0
                        &&& final(exec).local(self.id as int) == old(exec).own_work(self.id as int).subrange(
                            i + 1,
                            old(exec).own_work(self.id as int).len() as int,
                        )
                    }
                },
    {
        let me = self.id;
        let n = exec.locals.len();
        let ghost order = old(exec).own_work(me as int);
        let ghost mut consumed: int = 0;
        let ghost mut cut: Seq<int> = Seq::new(n as nat, |w: int| 0int);
        let ghost mut src: int = -1;
        let ghost mut pos: int = 0;
        let ghost own_len = old(exec).local(me as int).len() as int;
        loop
            invariant
                own_len == old(exec).local(me as int).len(),
                consumed < own_len ==> exec.injector() == old(exec).injector(),
                own_len <= consumed < order.len() && exec.local(me as int).len() > 0
                    ==> exec.injector().len() == 0,
                cut.len() == n,
                forall|w: int|
                    0 <= w < n && w != me ==> 0 <= #[trigger] cut[w] <= old(exec).local(w).len()
                        && exec.local(w) == old(exec).local(w).subrange(
                        cut[w],
                        old(exec).local(w).len() as int,
                    ),
                forall|w: int, j: int|
                    0 <= w < n && w != me && 0 <= j < cut[w] && !(w == src && j >= pos) ==> !old(exec).runnable(#[trigger] old(exec).local(w)[j]),
                consumed == order.len() ==> exec.injector().len() == 0,
                consumed == order.len() && src >= 0 ==> {
                    &&& 0 <= src < n
                    &&& src != me
                    &&& 0 <= pos <= cut[src]
                    &&& exec.local(me as int) == old(exec).local(src).subrange(pos, cut[src])
                },
                consumed == order.len() && src < 0 ==> exec.local(me as int).len() == 0,
                consumed < order.len() ==> src < 0 && forall|w: int| 0 <= w < n ==> #[trigger] cut[w] == 0,
                0 <= consumed <= order.len(),
                order == old(exec).own_work(me as int),
                forall|j: int| 0 <= j < consumed ==> !#[trigger] old(exec).runnable(order[j]),
                consumed < order.len() ==> exec.own_work(me as int) == order.subrange(
                    consumed,
                    order.len() as int,
                ),
                consumed < order.len() ==> forall|w: int|
                    0 <= w < n && w != me ==> #[trigger] exec.local(w) == old(exec).local(w),
                exec.wf(),
                me == self.id,
                me < n,
                n == exec.locals@.len(),
                n == old(exec).spec_num_workers(),
                only_wakes_recorded(*old(exec), *exec),
                exec.idle@ == old(exec).idle@,
                forall|x: u64| old(exec).is_queued(x) && old(exec).runnable(x) ==> exec.is_queued(x),
                forall|x: u64|
                    old(exec).is_queued(x) && x < old(exec).tasks().len() && old(exec).tasks()[x as int].spec_state()
                        == TaskState::Polling ==> exec.is_queued(x) || exec.tasks()[x as int].spec_notified(),
                forall|x: u64| exec.is_queued(x) ==> old(exec).is_queued(x),
                exec.queued_items().subset_of(old(exec).queued_items()),
            decreases exec.queued_len(), (if exec.local(me as int).len() == 0 {
                1nat
            } else {
                0nat
            }),
        {
            let ghost s0 = *exec;
            let popped = deque_pop(&mut exec.locals[me]);
            proof {
                assert(exec.locals@ == s0.locals@.update(me as int, exec.locals@[me as int]));
                assert(forall|w: int| 0 <= w < n && w != me ==> #[trigger] exec.local(w) == s0.local(w));
                lemma_deques_len_update(s0.locals@, me as int, exec.locals@[me as int]);
            }
            proof {
                if popped is None {
                    ExecutorHandle::lemma_same_queues(s0, *exec);
                    ExecutorHandle::lemma_wf_queues_shrink(s0, *exec);
                    ExecutorHandle::lemma_items_same_deque(s0, *exec, me as int);
                } else {
                    broadcast use vstd::multiset::group_multiset_axioms;

                    ExecutorHandle::lemma_items_pop(s0, *exec, me as int);
                    assert(exec.queued_items().subset_of(s0.queued_items()));
                }
            }
            if let Some(id) = popped {
                proof {
                    ExecutorHandle::lemma_pop_local(s0, *exec, me as int);
                    ExecutorHandle::lemma_wf_queues_shrink(s0, *exec);
                    assert(s0.local(me as int)[0] == id);
                    if consumed < order.len() {
                        assert(exec.injector() == s0.injector());
                        assert(exec.local(me as int) == s0.local(me as int).drop_first());
                        assert(s0.own_work(me as int) == order.subrange(consumed, order.len() as int));
                        assert(s0.own_work(me as int)[0] == id);
                        assert(order[consumed] == id);
                        assert(exec.own_work(me as int) =~= s0.own_work(me as int).drop_first());
                        assert(exec.own_work(me as int) =~= order.subrange(
                            consumed + 1,
                            order.len() as int,
                        ));
                    } else {
                        assert(src >= 0);
                        assert(s0.local(me as int) == old(exec).local(src).subrange(pos, cut[src]));
                        assert(old(exec).local(src)[pos] == id);
                        assert(exec.local(me as int) =~= old(exec).local(src).subrange(pos + 1, cut[src]));
                    }
                }
                let ghost s1 = *exec;
                let tn = exec.tasks.len();
                assert(id < tn);
                let claimed = exec.tasks[id as usize].try_take();
                proof {
                    ExecutorHandle::lemma_task_change(s1, *exec, id as int);
                }
                match claimed {
                    Some(future) => {
                        proof {
                            if consumed < order.len() {
                                assert(old(exec).runnable(order[consumed]));
                                let ol = old(exec).local(me as int);
                                assert(exec.injector() == s0.injector());
                                assert(exec.local(me as int) == s1.local(me as int));
                                if consumed < own_len {
                                    let lm = exec.local(me as int);
                                    assert(exec.own_work(me as int) == lm.add(old(exec).injector()));
                                    assert(exec.own_work(me as int) == order.subrange(consumed + 1, order.len() as int));
                                    assert(order == ol.add(old(exec).injector()));
                                    assert(lm.len() == own_len - consumed - 1);
                                    assert forall|k: int| 0 <= k < lm.len() implies lm[k] == ol.subrange(
                                        consumed + 1,
                                        own_len,
                                    )[k] by {
                                        assert(exec.own_work(me as int)[k] == lm[k]);
                                        assert(order[consumed + 1 + k] == ol[consumed + 1 + k]);
                                    }
                                    assert(lm =~= ol.subrange(consumed + 1, own_len));
                                } else {
                                    assert(s0.injector().len() == 0);
                                    assert(exec.local(me as int) =~= exec.own_work(me as int));
                                }
                            }
                            assert(s0.local(me as int).contains(id));
                            assert(s0.is_queued(id));
                            assert(old(exec).is_queued(id) && old(exec).runnable(id));
                            if consumed == order.len() {
                                assert forall|j: int| 0 <= j < pos implies !#[trigger] old(exec).runnable(
                                    old(exec).local(src)[j],
                                ) by {
                                    assert(!old(exec).runnable(old(exec).local(src)[j]));
                                }
                                assert(first_runnable_in(*old(exec), src, id));
                                assert(claimed_from_batch(*old(exec), *exec, me as int, src, pos, cut[src], id));
                                assert forall|w: int| 0 <= w < n && w != me implies #[trigger] lost_front(
                                    *old(exec),
                                    *exec,
                                    w,
                                ) by {
                                    assert(old(exec).local(w).subrange(cut[w], old(exec).local(w).len() as int)
                                        == exec.local(w));
                                }
                            }
                        }
                        return WorkerStep::Run(id, future);
                    },
                    None => {
                        assert(exec.tasks@ =~= s1.tasks@);
                        if exec.tasks[id as usize].state() == TaskState::Polling {
                            // Woken while being polled: keep the wake-up for after the poll.
                            let ghost s2 = *exec;
                            exec.tasks[id as usize].notify();
                            proof {
                                ExecutorHandle::lemma_task_change(s2, *exec, id as int);
                                assert(s0.local(me as int).contains(id));
                                assert(s0.is_queued(id));
                                assert forall|i: int| 0 <= i < old(exec).tasks().len() implies wake_recorded(
                                    old(exec).tasks()[i],
                                    #[trigger] exec.tasks()[i],
                                    old(exec).is_queued(i as u64),
                                ) by {
                                    if i != id {
                                        assert(exec.tasks()[i] == s2.tasks()[i]);
                                        assert(wake_recorded(old(exec).tasks()[i], s0.tasks()[i], old(exec).is_queued(i as u64)));
                                    } else {
                                        assert(wake_recorded(old(exec).tasks()[i], s0.tasks()[i], old(exec).is_queued(i as u64)));
                                    }
                                }
                            }
                        }
                        proof {
                            assert(exec.tasks()[id as int].spec_state() == old(exec).tasks()[id as int].spec_state());
                            assert(!old(exec).runnable(id));
                            if consumed < order.len() {
                                consumed = consumed + 1;
                            } else {
                                assert(old(exec).local(src)[pos] == id);
                                pos = pos + 1;
                            }
                        }
                        continue;
                    },
                }
            }
            // Move the whole injector into this worker's deque.
            let mut draining = true;
            while draining
                invariant
                    exec.wf(),
                    me < n,
                    n == exec.locals@.len(),
                    exec.tasks@ == s0.tasks@,
                    exec.idle@ == old(exec).idle@,
                    exec.queued_len() == s0.queued_len(),
                    s0.local(me as int).len() == 0,
                    forall|x: u64| s0.is_queued(x) ==> exec.is_queued(x),
                    forall|x: u64| exec.is_queued(x) ==> s0.is_queued(x),
                    exec.queued_items() == s0.queued_items(),
                    !draining ==> exec.injector().len() == 0,
                    exec.own_work(me as int) == s0.own_work(me as int),
                    forall|w: int| 0 <= w < n && w != me ==> #[trigger] exec.local(w) == s0.local(w),
                decreases exec.injector().len() + (if draining {
                    1nat
                } else {
                    0nat
                }),
            {
                let ghost s2 = *exec;
                match injector_pop(&mut exec.injector) {
                    Some(id) => {
                        let ghost s3 = *exec;
                        deque_push(&mut exec.locals[me], id);
                        proof {
                            assert(exec.locals@ == s3.locals@.update(me as int, exec.locals@[me as int]));
                            lemma_deques_len_update(s3.locals@, me as int, exec.locals@[me as int]);
                            assert(forall|w: int| 0 <= w < n && w != me ==> #[trigger] exec.local(w) == s2.local(w));
                            ExecutorHandle::lemma_move_injector_head(s2, *exec, me as int);
                            assert(s3.locals@ == s2.locals@);
                            ExecutorHandle::lemma_items_move_head(s2, *exec, me as int);
                            assert(exec.own_work(me as int) =~= s2.own_work(me as int));
                            ExecutorHandle::lemma_wf_queues_shrink(s2, *exec);
                        }
                    },
                    None => {
                        draining = false;
                        proof {
                            assert(forall|w: int| 0 <= w < n ==> #[trigger] exec.local(w) == s2.local(w));
                            ExecutorHandle::lemma_same_queues(s2, *exec);
                            ExecutorHandle::lemma_wf_queues_shrink(s2, *exec);
                        }
                    },
                }
            }
            if !deque_is_empty(&exec.locals[me]) {
                continue;
            }
            proof {
                if consumed < order.len() {
                    assert(exec.own_work(me as int).len() == 0);
                }
            }
            // Steal a batch from another worker, starting at a random index.
            let start = (random_u32() as usize) % n;
            let ghost s4 = *exec;
            proof {
                assert(consumed == order.len());
                if src >= 0 {
                    assert(pos == cut[src]);
                }
            }
            let stolen = self.steal(exec, start);
            proof {
                if stolen is Some {
                    let v = stolen->0 as int;
                    let k = choose|k: int|
                        0 < k <= s4.local(v).len() && #[trigger] exec.local(v) == s4.local(v).subrange(
                            k,
                            s4.local(v).len() as int,
                        ) && exec.local(me as int) == s4.local(me as int).add(s4.local(v).subrange(0, k));
                    let c = cut[v];
                    let lv = old(exec).local(v);
                    assert(s4.local(v) == lv.subrange(c, lv.len() as int));
                    assert(exec.local(v) =~= lv.subrange(c + k, lv.len() as int));
                    assert(exec.local(me as int) =~= lv.subrange(c, c + k));
                    assert forall|w: int, j: int|
                        0 <= w < n && w != me && 0 <= j < cut.update(v, c + k)[w] && !(w == v && j >= c)
                            implies !old(exec).runnable(#[trigger] old(exec).local(w)[j]) by {
                        if w == v {
                            assert(j < c);
                            if src == v {
                                assert(pos == c);
                            }
                        }
                    }
                    src = v;
                    pos = c;
                    cut = cut.update(v, c + k);
                }
                assert(deque_unshared(exec.deque(me as int)));
            }
            if !deque_is_empty(&exec.locals[me]) {
                continue;
            }
            proof {
                if stolen is Some {
                    let v = stolen->0;
                    let k = choose|k: int|
                        0 < k <= s4.local(v as int).len() && #[trigger] exec.local(v as int)
                            == s4.local(v as int).subrange(k, s4.local(v as int).len() as int)
                            && exec.local(me as int) == s4.local(me as int).add(
                            s4.local(v as int).subrange(0, k),
                        );
                    assert(exec.local(me as int).len() > 0);
                }
                assert(forall|w: int| 0 <= w < n ==> #[trigger] exec.local(w).len() == 0);
            }
            let ghost s5 = *exec;
            exec.idle.set(me, true);
            proof {
                ExecutorHandle::lemma_wf_idle_change(s5, *exec);
                ExecutorHandle::lemma_same_queues(s5, *exec);
            }
            // Check again before parking, so that no wake-up is lost.
            if !deque_is_empty(&exec.locals[me]) || !injector_is_empty(&exec.injector) {
                exec.idle.set(me, false);
                continue;
            }
            proof {
                assert(forall|w: int| 0 <= w < n ==> #[trigger] exec.local(w) == s5.local(w));
                assert forall|x: u64| !(#[trigger] old(exec).is_queued(x) && old(exec).runnable(x)) by {
                    if old(exec).is_queued(x) && old(exec).runnable(x) {
                        assert(exec.is_queued(x));
                        if !exec.injector().contains(x) {
                            let w = choose|w: int|
                                0 <= w < exec.spec_num_workers() && #[trigger] exec.local(w).contains(x);
                            assert(exec.local(w).len() == 0);
                        }
                    }
                }
            }
            return WorkerStep::Park;
        }
    }
}

/// The executor's constructor.
pub struct Executor {}

impl Executor {
    /// Creates the scheduler state for `available` hardware threads: one worker per
    /// thread, capped at `MAX_WORKERS`, each with an empty FIFO deque and marked busy,
    /// an empty injector and no tasks.
    pub fn new<F>(available: usize) -> (h: ExecutorHandle<F>)
        requires
            available >= 1,
        ensures
            h.wf(),
            h.spec_num_workers() == worker_count(available),
            available <= MAX_WORKERS ==> h.spec_num_workers() == available,
            available > MAX_WORKERS ==> h.spec_num_workers() == MAX_WORKERS,
            h.injector().len() == 0,
            forall|w: int| 0 <= w < h.spec_num_workers() ==> #[trigger] h.local(w).len() == 0,
            h.idle_flags() == Seq::new(worker_count(available) as nat, |w: int| false),
            h.tasks().len() == 0,
    {
        let num_workers = if available > MAX_WORKERS {
            MAX_WORKERS
        } else {
            available
        };
        let injector = injector_new();
        let mut locals: Vec<DequeWorker<u64>> = Vec::new();
        let mut idle: Vec<bool> = Vec::new();
        let mut i: usize = 0;
        while i < num_workers
            invariant
                i <= num_workers,
                locals@.len() == i,
                idle@.len() == i,
                forall|w: int| 0 <= w < i ==> !#[trigger] idle@[w],
                forall|w: int|
                    0 <= w < i ==> deque_is_fifo(#[trigger] locals@[w]) && deque_unshared(locals@[w])
                        && deque_items(locals@[w]).len()
                        == 0,
            decreases num_workers - i,
        {
            locals.push(deque_new_fifo());
            idle.push(false);
            i = i + 1;
        }
        let h = ExecutorHandle { injector, locals, idle, tasks: Vec::new() };
        assert(h.idle@ =~= Seq::new(worker_count(available) as nat, |w: int| false));
        h
    }
}

} // verus!
