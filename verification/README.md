# hisi-rtos

A scheduler and runtime for single-hart HiSilicon firmware whose decisions are verified
with Verus.

Each task chooses a run policy: cooperative, budgeted or preemptive. Ready tasks are taken
by effective priority and first come, first served within one priority; the policy only
says when a running task may be switched away from. An internal idle thread takes over
when nothing else can run. Recursive mutexes hand over directly and pass on priorities;
semaphores grant directly to the best waiter. Sleep, timeouts, time slices, budgets, the
scheduler-lock limit and Embassy timers share one one-shot timer.

## Layout

- `src/model.rs` is the mathematical model: queues as sequences, one function from model
  to model for each operation. The modules beside it refine it: `scheduler`, `sync`,
  `semaphore`, `mutex`, `locking`, `inheritance`, `switching`, `schedlock`, `timing`,
  `dispatch`, `slots`, `reservation`, `planning` and `lifecycle`.
- `src/kernel.rs`, `services.rs`, `objects.rs` and `reserve.rs` are the runtime around the
  scheduler. Operations that end in a context switch or in programming a timer return what
  is to be done.
- `src/laws.rs` states what every operation keeps, `src/presence.rs` that no operation loses
  a ready task, `src/targets.rs` that a task chosen to run next can run until it does,
  `src/promises.rs` what the scheduler promises of its choices.
- `src/blocks.rs` is where memory comes from: an allocator with a log of what it was asked and
  what it answered. Reservations, semaphores and mutexes state their outcome over that log.
- `src/storage.rs` and `src/alarm.rs` hold the two outside collections: the stack heap and
  the Embassy timer queue.
- `app/` is the hardware side: critical sections, registers, the timer port, the radio
  driver contract and the Embassy time driver.
