use vstd::prelude::*;

verus! {

/// Execution state of a task.
#[derive(PartialEq, Eq, Structural, Clone, Copy, Debug)]
pub enum TaskState {
    /// Waiting to be polled; the future is stored in the task.
    Idle,
    /// A worker has taken the future out and is polling it.
    Polling,
    /// The future finished; it has been dropped.
    Completed,
}

/// What one poll of a task's future reported.
#[derive(PartialEq, Eq, Structural, Clone, Copy, Debug)]
pub enum PollStatus {
    Ready,
    Pending,
}

/// Claiming a task in `state` with stored `future`: the future handed out, then the
/// task's new state and stored future. Only an idle task can be claimed.
pub open spec fn claim<F>(state: TaskState, future: Option<F>) -> (Option<F>, TaskState, Option<F>) {
    if state == TaskState::Idle {
        (future, TaskState::Polling, None)
    } else {
        (None, state, future)
    }
}

/// Recording a poll of `future` that reported `status`: the task's new state and
/// stored future. A ready future is dropped; a pending one is stored back.
pub open spec fn record_poll<F>(future: F, status: PollStatus) -> (TaskState, Option<F>) {
    match status {
        PollStatus::Ready => (TaskState::Completed, None),
        PollStatus::Pending => (TaskState::Idle, Some(future)),
    }
}

/// Once claimed, a task cannot be claimed again: the second claim hands out nothing.
pub proof fn lemma_claim_is_exclusive<F>(state: TaskState, future: Option<F>)
    ensures
        claim(claim(state, future).1, claim(state, future).2).0 is None,
{
}

/// A task whose poll was pending hands the same future out at its next claim.
pub proof fn lemma_pending_future_is_reclaimed<F>(future: F)
    ensures
        claim(record_poll(future, PollStatus::Pending).0, record_poll(future, PollStatus::Pending).1).0
            == Some(future),
{
}

/// Claiming an idle task and putting its future back after a pending poll restores
/// the task exactly: idle again, holding the very future that was handed out.
pub proof fn lemma_take_then_release_restores<F>(future: F)
    ensures
        claim(TaskState::Idle, Some(future)).0 == Some(future),
        record_poll(claim(TaskState::Idle, Some(future)).0->0, PollStatus::Pending) == (
            TaskState::Idle,
            Some(future),
        ),
{
}

/// A completed task stays completed: claiming it hands out nothing and changes nothing.
pub proof fn lemma_completed_is_final<F>(future: F, stored: Option<F>)
    ensures
        record_poll(future, PollStatus::Ready).0 == TaskState::Completed,
        claim(TaskState::Completed, stored) == (None::<F>, TaskState::Completed, stored),
{
}

/// Waking a task in `state` whose wake-up flag is `notified`: the new flag. Only a
/// task that is being polled records the wake-up; its poll cannot see it any more.
pub open spec fn notify_spec(state: TaskState, notified: bool) -> bool {
    if state == TaskState::Polling {
        true
    } else {
        notified
    }
}

/// Whether a task must be queued again after its poll: it was woken while being
/// polled, and the poll was pending.
pub open spec fn requeue_after_poll(notified: bool, status: PollStatus) -> bool {
    notified && status == PollStatus::Pending
}

/// A wake-up that arrives while a task is being polled is not lost: the task is
/// queued again once its poll turns out pending. Without such a wake-up, or when
/// the poll is ready, it is not.
pub proof fn lemma_wake_during_poll_is_kept<F>(future: F, status: PollStatus)
    ensures
        claim(TaskState::Idle, Some(future)).1 == TaskState::Polling,
        notify_spec(claim(TaskState::Idle, Some(future)).1, false),
        requeue_after_poll(
            notify_spec(claim(TaskState::Idle, Some(future)).1, false),
            PollStatus::Pending,
        ),
        !requeue_after_poll(false, status),
        !requeue_after_poll(true, PollStatus::Ready),
{
}

/// An async task: an identifier, a lifecycle state, the stored future and whether
/// it was woken while being polled.
///
/// The future lives in the task exactly while the task is idle: a worker takes it
/// out to poll it, and puts it back only when the poll was pending.
pub struct Task<F> {
    id: u64,
    state: TaskState,
    future: Option<F>,
    notified: bool,
}

impl<F> Task<F> {
    /// The task's identifier.
    pub closed spec fn spec_id(&self) -> u64 {
        self.id
    }

    /// The task's lifecycle state.
    pub closed spec fn spec_state(&self) -> TaskState {
        self.state
    }

    /// The future stored in the task, if any.
    pub closed spec fn spec_future(&self) -> Option<F> {
        self.future
    }

    /// Whether the task was woken while being polled.
    pub closed spec fn spec_notified(&self) -> bool {
        self.notified
    }

    /// The future is stored exactly while the task is idle, and only a task that is
    /// being polled holds a wake-up.
    pub open spec fn wf(&self) -> bool {
        &&& self.spec_future().is_some() <==> self.spec_state() == TaskState::Idle
        &&& self.spec_notified() ==> self.spec_state() == TaskState::Polling
    }

    /// Creates an idle task holding `future`.
    pub fn new(id: u64, future: F) -> (t: Self)
        ensures
            t.wf(),
            t.spec_id() == id,
            t.spec_state() == TaskState::Idle,
            t.spec_future() == Some(future),
            !t.spec_notified(),
    {
        Task { id, state: TaskState::Idle, future: Some(future), notified: false }
    }

    /// The task's identifier.
    pub fn id(&self) -> (r: u64)
        ensures
            r == self.spec_id(),
    {
        self.id
    }

    /// The task's lifecycle state.
    pub fn state(&self) -> (r: TaskState)
        ensures
            r == self.spec_state(),
    {
        self.state
    }

    /// Claims the task for polling.
    ///
    /// Only an idle task can be claimed: it becomes `Polling` and its future is handed
    /// out. A task that is being polled or has completed is left as it is.
    pub fn try_take(&mut self) -> (r: Option<F>)
        requires
            old(self).wf(),
        ensures
            final(self).wf(),
            final(self).spec_id() == old(self).spec_id(),
            (r, final(self).spec_state(), final(self).spec_future()) == claim(
                old(self).spec_state(),
                old(self).spec_future(),
            ),
            final(self).spec_notified() == old(self).spec_notified(),
            old(self).spec_state() == TaskState::Idle <==> r is Some,
            r is None ==> *final(self) == *old(self),
    {
        if self.state != TaskState::Idle {
            return None;
        }
        self.state = TaskState::Polling;
        let taken = self.future.take();
        if taken.is_none() {
            self.state = TaskState::Idle;
            return None;
        }
        taken
    }

    /// Records a wake-up of the task.
    ///
    /// A task that is being polled keeps the wake-up, to be queued again after its
    /// poll; returns whether it did so. Any other task is left as it is.
    pub fn notify(&mut self) -> (recorded: bool)
        requires
            old(self).wf(),
        ensures
            final(self).wf(),
            recorded == (old(self).spec_state() == TaskState::Polling),
            final(self).spec_notified() == notify_spec(
                old(self).spec_state(),
                old(self).spec_notified(),
            ),
            final(self).spec_id() == old(self).spec_id(),
            final(self).spec_state() == old(self).spec_state(),
            final(self).spec_future() == old(self).spec_future(),
    {
        if self.state == TaskState::Polling {
            self.notified = true;
            true
        } else {
            false
        }
    }

    /// Records the outcome of polling `future`.
    ///
    /// A ready future is dropped and the task completes; a pending one is stored back
    /// and the task becomes idle again, so it can be claimed by the next wake-up.
    /// Returns whether the task must be queued again: it was woken during the poll
    /// and the poll was pending.
    pub fn poll(&mut self, future: F, status: PollStatus) -> (requeue: bool)
        ensures
            final(self).wf(),
            final(self).spec_id() == old(self).spec_id(),
            (final(self).spec_state(), final(self).spec_future()) == record_poll(future, status),
            !final(self).spec_notified(),
            requeue == requeue_after_poll(old(self).spec_notified(), status),
    {
        let requeue = self.notified && status == PollStatus::Pending;
        self.notified = false;
        match status {
            PollStatus::Ready => {
                self.future = None;
                self.state = TaskState::Completed;
            },
            PollStatus::Pending => {
                self.release_after_poll(future);
            },
        }
        requeue
    }

    /// Puts a pending future back and makes the task idle.
    fn release_after_poll(&mut self, future: F)
        ensures
            final(self).spec_id() == old(self).spec_id(),
            final(self).spec_state() == TaskState::Idle,
            final(self).spec_future() == Some(future),
            final(self).spec_notified() == old(self).spec_notified(),
    {
        self.future = Some(future);
        self.state = TaskState::Idle;
    }
}

/// The identifier handed out `i` calls after the one that handed out `start`:
/// counting up from `start`, wrapping around after `u64::MAX`.
pub open spec fn nth_id(start: u64, i: nat) -> u64 {
    ((start + i) % 0x1_0000_0000_0000_0000int) as u64
}

/// Successive identifiers follow one another: one more call advances by one.
pub proof fn lemma_nth_id_step(start: u64, i: nat)
    ensures
        nth_id(nth_id(start, i), 1) == nth_id(start, i + 1),
{
}

/// Identifiers are fresh: the calls that follow one another hand out pairwise
/// distinct identifiers, until the whole range has been used once.
pub proof fn lemma_ids_are_fresh(start: u64, i: nat, j: nat)
    requires
        i < j < 0x1_0000_0000_0000_0000int,
    ensures
        nth_id(start, i) != nth_id(start, j),
{
}

/// Source of fresh identifiers for I/O tokens.
///
/// Each call hands out the current value and advances it by one, wrapping around
/// at the end of the range as an atomic fetch-and-add does.
pub struct IdCounter {
    next: u64,
}

impl IdCounter {
    /// The identifier the next call of `fetch_next` hands out.
    pub closed spec fn spec_next(&self) -> u64 {
        self.next
    }

    /// A counter that starts at 0.
    pub fn new() -> (c: Self)
        ensures
            c.spec_next() == 0,
    {
        IdCounter { next: 0 }
    }

    /// Hands out the current identifier and advances the counter.
    pub fn fetch_next(&mut self) -> (id: u64)
        ensures
            id == old(self).spec_next(),
            final(self).spec_next() == nth_id(old(self).spec_next(), 1),
    {
        let id = self.next;
        self.next = self.next.wrapping_add(1);
        id
    }
}

} // verus!
