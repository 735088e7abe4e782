//! The outside queues that hold task identifiers: the global injector
//! (`crossbeam_queue::SegQueue`) and the per-worker FIFO deques
//! (`crossbeam_deque::Worker`). Their contents are named by spec functions and
//! every operation the scheduler uses is a wrapper whose contract speaks of them.
use vstd::prelude::*;
use crossbeam_deque::Steal;
use crossbeam_deque::Worker as DequeWorker;
use crossbeam_queue::SegQueue;

verus! {

#[verifier::external_type_specification]
#[verifier::external_body]
#[verifier::reject_recursive_types(T)]
pub struct ExSegQueue<T>(SegQueue<T>);

#[verifier::external_type_specification]
#[verifier::external_body]
#[verifier::reject_recursive_types(T)]
pub struct ExDequeWorker<T>(DequeWorker<T>);

/// The identifiers in an injector queue, oldest first.
pub uninterp spec fn injector_items(q: SegQueue<u64>) -> Seq<u64>;

/// The identifiers in a worker deque, from the end that `pop` takes to the end that `push` fills.
pub uninterp spec fn deque_items(w: DequeWorker<u64>) -> Seq<u64>;

/// Whether a worker deque was made with `new_fifo`.
pub uninterp spec fn deque_is_fifo(w: DequeWorker<u64>) -> bool;

/// Whether a worker deque's queue is reachable through this `Worker` alone: no
/// `Stealer` of it exists, so nothing else can take from it or resize it.
pub uninterp spec fn deque_unshared(w: DequeWorker<u64>) -> bool;

/// `SegQueue::new`: an empty queue.
#[verifier::external_body]
pub(crate) fn injector_new() -> (q: SegQueue<u64>)
    ensures
        injector_items(q) == Seq::<u64>::empty(),
{
    SegQueue::new()
}

/// `SegQueue::push`: appends `id` at the back.
#[verifier::external_body]
pub(crate) fn injector_push(q: &mut SegQueue<u64>, id: u64)
    ensures
        injector_items(*final(q)) == injector_items(*old(q)).push(id),
{
    q.push(id)
}

/// `SegQueue::pop`: removes and returns the oldest identifier, `None` when empty.
#[verifier::external_body]
pub(crate) fn injector_pop(q: &mut SegQueue<u64>) -> (r: Option<u64>)
    ensures
        injector_items(*old(q)).len() == 0 ==> r.is_none() && injector_items(*final(q))
            == injector_items(*old(q)),
        injector_items(*old(q)).len() > 0 ==> r == Some(injector_items(*old(q))[0])
            && injector_items(*final(q)) == injector_items(*old(q)).drop_first(),
{
    q.pop()
}

/// `SegQueue::is_empty`.
#[verifier::external_body]
pub(crate) fn injector_is_empty(q: &SegQueue<u64>) -> (r: bool)
    ensures
        r == (injector_items(*q).len() == 0),
{
    q.is_empty()
}

/// `SegQueue::len`: the number of identifiers in the queue.
#[verifier::external_body]
pub(crate) fn injector_len(q: &SegQueue<u64>) -> (r: usize)
    ensures
        r == injector_items(*q).len(),
{
    q.len()
}

/// `Worker::new_fifo`: an empty FIFO deque.
#[verifier::external_body]
pub(crate) fn deque_new_fifo() -> (w: DequeWorker<u64>)
    ensures
        deque_items(w) == Seq::<u64>::empty(),
        deque_is_fifo(w),
        deque_unshared(w),
{
    DequeWorker::new_fifo()
}

/// `Worker::push`: a FIFO deque appends `id` at its back.
#[verifier::external_body]
pub(crate) fn deque_push(w: &mut DequeWorker<u64>, id: u64)
    requires
        deque_unshared(*old(w)),
    ensures
        deque_is_fifo(*final(w)) == deque_is_fifo(*old(w)),
        deque_unshared(*final(w)) == deque_unshared(*old(w)),
        deque_is_fifo(*old(w)) ==> deque_items(*final(w)) == deque_items(*old(w)).push(id),
{
    w.push(id)
}

/// `Worker::pop`: a FIFO deque removes and returns its oldest identifier, `None` when empty.
#[verifier::external_body]
pub(crate) fn deque_pop(w: &mut DequeWorker<u64>) -> (r: Option<u64>)
    requires
        deque_unshared(*old(w)),
    ensures
        deque_is_fifo(*final(w)) == deque_is_fifo(*old(w)),
        deque_unshared(*final(w)) == deque_unshared(*old(w)),
        deque_items(*old(w)).len() == 0 ==> r.is_none() && deque_items(*final(w)) == deque_items(
            *old(w),
        ),
        deque_is_fifo(*old(w)) && deque_items(*old(w)).len() > 0 ==> r == Some(
            deque_items(*old(w))[0],
        ) && deque_items(*final(w)) == deque_items(*old(w)).drop_first(),
{
    w.pop()
}

/// `Worker::is_empty`.
#[verifier::external_body]
pub(crate) fn deque_is_empty(w: &DequeWorker<u64>) -> (r: bool)
    requires
        deque_unshared(*w),
    ensures
        r == (deque_items(*w).len() == 0),
{
    w.is_empty()
}

/// What a batch steal reported.
#[derive(PartialEq, Eq, Structural, Clone, Copy, Debug)]
pub enum StealOutcome {
    /// The victim's deque was empty.
    Empty,
    /// At least one identifier moved.
    Success,
    /// The steal lost a race and moved nothing.
    Retry,
}

/// `Stealer::steal_batch`, through a stealer of `deques[from]`, into `deques[to]`.
///
/// Claimed, as the source of both FIFO flavors shows: on success a non-empty prefix
/// of the victim's identifiers moves, in order, to the back of the thief's deque;
/// otherwise neither deque changes, and `Empty` is reported exactly when the victim
/// is empty. `Retry` comes only from a concurrent change of the victim's queue (a
/// swapped buffer or a lost compare-and-swap of its front); with the victim
/// unshared and borrowed exclusively here, it does not occur. The stealer made for
/// the call is dropped before it returns. How many identifiers move is left open,
/// as the crate documents.
#[verifier::external_body]
pub(crate) fn deque_steal_batch(deques: &mut Vec<DequeWorker<u64>>, from: usize, to: usize) -> (r:
    StealOutcome)
    requires
        from < old(deques)@.len(),
        to < old(deques)@.len(),
        from != to,
        deque_is_fifo(old(deques)@[from as int]),
        deque_is_fifo(old(deques)@[to as int]),
        deque_unshared(old(deques)@[from as int]),
        deque_unshared(old(deques)@[to as int]),
    ensures
        final(deques)@.len() == old(deques)@.len(),
        forall|k: int|
            0 <= k < old(deques)@.len() && k != from && k != to ==> #[trigger] final(deques)@[k]
                == old(deques)@[k],
        deque_is_fifo(final(deques)@[from as int]),
        deque_is_fifo(final(deques)@[to as int]),
        deque_unshared(final(deques)@[from as int]),
        deque_unshared(final(deques)@[to as int]),
        r != StealOutcome::Retry,
        r == StealOutcome::Empty <==> deque_items(old(deques)@[from as int]).len() == 0,
        r != StealOutcome::Success ==> deque_items(final(deques)@[from as int]) == deque_items(
            old(deques)@[from as int],
        ) && deque_items(final(deques)@[to as int]) == deque_items(old(deques)@[to as int]),
        r == StealOutcome::Success ==> exists|n: int|
            #![trigger deque_items(old(deques)@[from as int]).subrange(0, n)]
            0 < n <= deque_items(old(deques)@[from as int]).len() && deque_items(
                final(deques)@[from as int],
            ) == deque_items(old(deques)@[from as int]).subrange(
                n,
                deque_items(old(deques)@[from as int]).len() as int,
            ) && deque_items(final(deques)@[to as int]) == deque_items(
                old(deques)@[to as int],
            ).add(deque_items(old(deques)@[from as int]).subrange(0, n)),
{
    match deques[from].stealer().steal_batch(&deques[to]) {
        Steal::Empty => StealOutcome::Empty,
        Steal::Success(()) => StealOutcome::Success,
        Steal::Retry => StealOutcome::Retry,
    }
}

} // verus!
