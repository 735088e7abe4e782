use yot_run::task::{IdCounter, PollStatus, Task, TaskState};

#[test]
fn new_task_is_idle_with_its_id() {
    let t = Task::new(7, "fut");
    assert_eq!(t.id(), 7);
    assert_eq!(t.state(), TaskState::Idle);
}

#[test]
fn claim_is_exclusive() {
    let mut t = Task::new(0, 11u32);
    assert_eq!(t.try_take(), Some(11));
    assert_eq!(t.state(), TaskState::Polling);
    assert_eq!(t.try_take(), None);
    assert_eq!(t.state(), TaskState::Polling);
}

#[test]
fn pending_poll_stores_future_back() {
    let mut t = Task::new(3, 5u32);
    let f = t.try_take().unwrap();
    t.poll(f + 1, PollStatus::Pending);
    assert_eq!(t.state(), TaskState::Idle);
    assert_eq!(t.try_take(), Some(6));
    assert_eq!(t.id(), 3);
}

#[test]
fn ready_poll_completes_for_good() {
    let mut t = Task::new(1, 5u32);
    let f = t.try_take().unwrap();
    t.poll(f, PollStatus::Ready);
    assert_eq!(t.state(), TaskState::Completed);
    assert_eq!(t.try_take(), None);
    assert_eq!(t.state(), TaskState::Completed);
}

#[test]
fn poll_on_idle_task_replaces_future() {
    let mut t = Task::new(1, 5u32);
    t.poll(9, PollStatus::Pending);
    assert_eq!(t.try_take(), Some(9));
}

#[test]
fn notify_records_wake_only_while_polling() {
    let mut t = Task::new(0, 1u32);
    assert!(!t.notify());
    let f = t.try_take().unwrap();
    assert!(t.notify());
    assert!(t.poll(f, PollStatus::Pending));
    // The wake-up was consumed by the pending poll.
    let f = t.try_take().unwrap();
    assert!(!t.poll(f, PollStatus::Pending));
}

#[test]
fn ready_poll_never_requeues() {
    let mut t = Task::new(0, 1u32);
    let f = t.try_take().unwrap();
    assert!(t.notify());
    assert!(!t.poll(f, PollStatus::Ready));
    assert!(!t.notify());
}

#[test]
fn ids_count_up_from_zero() {
    let mut ids = IdCounter::new();
    assert_eq!(ids.fetch_next(), 0);
    assert_eq!(ids.fetch_next(), 1);
    assert_eq!(ids.fetch_next(), 2);
}
