use yot_run::executor::{Executor, ExecutorHandle, Worker, WorkerStep};
use yot_run::task::{PollStatus, TaskState};

fn run(exec: &mut ExecutorHandle<u32>, w: usize) -> Option<(u64, u32)> {
    match (Worker { id: w }).run(exec) {
        WorkerStep::Run(id, f) => Some((id, f)),
        WorkerStep::Park => None,
    }
}

#[test]
fn worker_count_is_capped_at_ten() {
    let h: ExecutorHandle<u32> = Executor::new(16);
    assert_eq!(h.num_workers(), 10);
    let h: ExecutorHandle<u32> = Executor::new(3);
    assert_eq!(h.num_workers(), 3);
    let h: ExecutorHandle<u32> = Executor::new(1);
    assert_eq!(h.num_workers(), 1);
}

#[test]
fn spawn_with_all_workers_busy_unparks_nobody() {
    let mut h: ExecutorHandle<u32> = Executor::new(2);
    assert_eq!(h.spawn(40), (0, None));
    assert_eq!(h.spawn(41), (1, None));
    assert_eq!(h.task_state(1), TaskState::Idle);
}

#[test]
fn worker_takes_from_injector_then_parks() {
    let mut h: ExecutorHandle<u32> = Executor::new(2);
    h.spawn(40);
    assert_eq!(run(&mut h, 0), Some((0, 40)));
    assert_eq!(h.task_state(0), TaskState::Polling);
    assert_eq!(run(&mut h, 0), None);
    assert_eq!(run(&mut h, 1), None);
}

#[test]
fn parked_worker_is_unparked_by_next_spawn() {
    let mut h: ExecutorHandle<u32> = Executor::new(3);
    assert_eq!(run(&mut h, 2), None);
    assert_eq!(run(&mut h, 1), None);
    // The lowest-numbered idle worker is picked, then marked busy.
    assert_eq!(h.spawn(7), (0, Some(1)));
    assert_eq!(h.spawn(8), (1, Some(2)));
    assert_eq!(h.spawn(9), (2, None));
    h.resume(1);
    assert_eq!(run(&mut h, 1), Some((0, 7)));
}

#[test]
fn try_unpark_one_clears_one_flag() {
    let mut h: ExecutorHandle<u32> = Executor::new(2);
    assert_eq!(h.try_unpark_one(), None);
    assert_eq!(run(&mut h, 1), None);
    assert_eq!(h.try_unpark_one(), Some(1));
    assert_eq!(h.try_unpark_one(), None);
}

#[test]
fn pending_task_runs_again_after_wake() {
    let mut h: ExecutorHandle<u32> = Executor::new(1);
    h.spawn(5);
    let (id, f) = run(&mut h, 0).unwrap();
    assert_eq!(h.poll_task(id, f + 1, PollStatus::Pending), None);
    assert_eq!(h.task_state(id), TaskState::Idle);
    assert_eq!(run(&mut h, 0), None);
    assert_eq!(h.enqueue(id), Some(0));
    h.resume(0);
    assert_eq!(run(&mut h, 0), Some((0, 6)));
}

#[test]
fn completed_task_is_never_run_again() {
    let mut h: ExecutorHandle<u32> = Executor::new(1);
    h.spawn(5);
    let (id, f) = run(&mut h, 0).unwrap();
    assert_eq!(h.poll_task(id, f, PollStatus::Ready), None);
    assert_eq!(h.task_state(id), TaskState::Completed);
    h.enqueue(id);
    assert_eq!(run(&mut h, 0), None);
}

#[test]
fn duplicate_wake_of_idle_task_is_skipped_while_polling() {
    let mut h: ExecutorHandle<u32> = Executor::new(1);
    h.spawn(5);
    h.enqueue(0);
    assert_eq!(run(&mut h, 0), Some((0, 5)));
    // The second copy of task 0 is popped while the task is being polled.
    assert_eq!(run(&mut h, 0), None);
}

#[test]
fn wake_during_poll_requeues_after_pending() {
    let mut h: ExecutorHandle<u32> = Executor::new(1);
    h.spawn(5);
    let (id, f) = run(&mut h, 0).unwrap();
    // Woken while being polled: the worker that pops it records the wake-up and parks.
    assert_eq!(h.enqueue(id), None);
    assert_eq!(h.injector_len(), 1);
    assert_eq!(run(&mut h, 0), None);
    assert_eq!(h.injector_len(), 0);
    // The poll turns out pending: the task is queued again and the parked worker unparked.
    assert_eq!(h.poll_task(id, f + 1, PollStatus::Pending), Some(0));
    h.resume(0);
    assert_eq!(run(&mut h, 0), Some((0, 6)));
}

#[test]
fn enqueue_pushes_whatever_the_state() {
    let mut h: ExecutorHandle<u32> = Executor::new(1);
    h.spawn(5);
    assert_eq!(h.injector_len(), 1);
    let (id, _) = run(&mut h, 0).unwrap();
    assert_eq!(h.injector_len(), 0);
    // Task 0 is being polled; enqueueing it still pushes it onto the injector.
    h.enqueue(id);
    assert_eq!(h.injector_len(), 1);
    assert_eq!(h.task_state(id), TaskState::Polling);
}

#[test]
fn wake_during_poll_is_dropped_when_ready() {
    let mut h: ExecutorHandle<u32> = Executor::new(1);
    h.spawn(5);
    let (id, f) = run(&mut h, 0).unwrap();
    assert_eq!(h.enqueue(id), None);
    assert_eq!(h.poll_task(id, f, PollStatus::Ready), None);
    assert_eq!(h.task_state(id), TaskState::Completed);
    assert_eq!(run(&mut h, 0), None);
}

#[test]
fn steal_tries_workers_in_turn_from_start() {
    let mut h: ExecutorHandle<u32> = Executor::new(3);
    for f in 0..4u32 {
        h.spawn(f);
    }
    // Worker 0 moves all four into its deque and runs the first.
    assert_eq!(run(&mut h, 0), Some((0, 0)));
    // Worker 2 starts at worker 1 (empty), skips itself and steals from worker 0.
    assert_eq!((Worker { id: 2 }).steal(&mut h, 1), Some(0));
    // Worker 1 starting at itself skips itself and finds worker 2 before worker 0.
    assert_eq!((Worker { id: 1 }).steal(&mut h, 1), Some(2));
}

#[test]
fn steal_finds_nothing_when_others_are_empty() {
    let mut h: ExecutorHandle<u32> = Executor::new(2);
    assert_eq!((Worker { id: 0 }).steal(&mut h, 0), None);
    h.spawn(1);
    assert_eq!(run(&mut h, 0), Some((0, 1)));
    assert_eq!((Worker { id: 1 }).steal(&mut h, 0), None);
}

#[test]
fn worker_never_parks_while_another_holds_runnable_work() {
    let mut h: ExecutorHandle<u32> = Executor::new(4);
    for f in 0..6u32 {
        h.spawn(f);
    }
    assert_eq!(run(&mut h, 3), Some((0, 0)));
    for w in 0..3 {
        assert!(run(&mut h, w).is_some());
    }
}

#[test]
fn idle_worker_steals_from_a_busy_one() {
    let mut h: ExecutorHandle<u32> = Executor::new(2);
    for f in 0..4u32 {
        h.spawn(100 + f);
    }
    // Worker 0 moves all four into its deque and runs the first.
    assert_eq!(run(&mut h, 0), Some((0, 100)));
    // Worker 1 finds nothing of its own and steals from worker 0, oldest first.
    assert_eq!(run(&mut h, 1), Some((1, 101)));
    let mut seen = vec![];
    while let Some((id, _)) = run(&mut h, 0) {
        seen.push(id);
    }
    while let Some((id, _)) = run(&mut h, 1) {
        seen.push(id);
    }
    seen.sort();
    assert_eq!(seen, vec![2, 3]);
}

#[test]
fn tasks_run_in_spawn_order_on_one_worker() {
    let mut h: ExecutorHandle<u32> = Executor::new(1);
    for f in 0..5u32 {
        h.spawn(f * 10);
    }
    let mut order = vec![];
    while let Some((id, f)) = run(&mut h, 0) {
        order.push((id, f));
        h.poll_task(id, f, PollStatus::Ready);
    }
    assert_eq!(order, vec![(0, 0), (1, 10), (2, 20), (3, 30), (4, 40)]);
}
