# yot_run

A work-stealing async runtime, split in two.

`src/` is the verified library:

- `task` — a task's lifecycle (idle, polling, completed), the store of its future,
  and the wake-up that arrives while it is being polled; the counter that hands
  out I/O tokens.
- `executor` — the scheduler's shared state: the global injector, one FIFO deque
  and one idle flag per worker, the task table. Spawning and waking tasks, picking
  the worker to unpark, stealing a batch from another worker, and each worker's
  search for its next task (own deque, then injector, then stealing, then parking).
  A worker parks only when no queue holds a runnable task. Waking a task always
  queues it; a worker that pops a task still being polled records the wake-up on
  it, and the task is queued again once its poll turns out pending.
- `queues` — the outside queues (`crossbeam_queue::SegQueue`,
  `crossbeam_deque::Worker`) behind contracts over their contents.
- `reactor` — the registry of wakers waiting for I/O readiness, and what an I/O
  future reports after one attempt.
- `main_attr` — the grammar of the `main` attribute's arguments
  (`show_ui = <bool>`, or nothing).

`app/` is the runtime around it: worker threads, wakers, the `mio` event loop, TCP
sockets, metrics, and the expansion of the `main` attribute over `proc_macro2`.
The scheduler state is one value behind a single `Mutex`: a worker takes the lock
for one scheduling step (or to record a poll's outcome, or to wake a task) and
polls futures outside it. Coordination is therefore lock-based, not lock-free.
