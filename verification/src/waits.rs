//! When sleeps and waits end, and which waits are refused.
//!
//! Tasks are examined at every timer interrupt, at every yield and whenever another task has
//! to be chosen. The laws here say in plain times and states what becomes of a task that
//! sleeps or waits.
use vstd::prelude::*;
use crate::config::{NIL, TASK_SLOT_COUNT};
use crate::error::DriverError;
use crate::model::SchedModel;
use crate::semaphore;
use crate::semaphore::WaitStep;
use crate::services::SleepStep;
use crate::task::{State, Tcb};

verus! {

/// Only the effective priority and the donations may differ.
pub open spec fn same_but_priority(before: Tcb, after: Tcb) -> bool {
    after == (Tcb {
        priority: after.priority,
        inherited_waiters: after.inherited_waiters,
        ..before
    })
}

/// A sleep or a timed wait of `task` is over at `now`.
pub open spec fn ends_by(task: Tcb, now: u64) -> bool {
    ||| task.state == State::Sleeping && now >= task.wake_at
    ||| task.state == State::Blocked && (task.waiting_sem != 0 || task.waiting_mutex != 0)
        && task.wake_at != 0 && now >= task.wake_at
}

/// What looking for ended sleeps and waits at `now` makes of a task: one that is over
/// leaves the task ready, waiting for nothing and without a grant.
pub open spec fn roused_at(before: Tcb, after: Tcb, now: u64) -> bool {
    if ends_by(before, now) {
        if before.state == State::Sleeping {
            same_but_priority(
                Tcb { state: State::Ready, metrics: after.metrics, ..before },
                after,
            )
        } else {
            same_but_priority(
                Tcb {
                    state: State::Ready,
                    waiting_sem: 0,
                    waiting_mutex: 0,
                    sem_granted: false,
                    wake_at: 0,
                    metrics: after.metrics,
                    ..before
                },
                after,
            )
        }
    } else {
        same_but_priority(before, after)
    }
}

impl SchedModel {
    // ---- One slot at a time ------------------------------------------------------
    proof fn lemma_woken_roused(self, slot: usize, now: u64, x: usize)
        requires
            self.coherent(),
            slot < TASK_SLOT_COUNT,
            x < TASK_SLOT_COUNT,
        ensures
            x != slot ==> same_but_priority(self.task(x), self.woken(slot, now).task(x)),
            x == slot ==> roused_at(self.task(x), self.woken(slot, now).task(x), now),
            self.woken(slot, now).sem_counts == self.sem_counts,
            self.woken(slot, now).mutex_owner == self.mutex_owner,
            self.woken(slot, now).mutex_depth == self.mutex_depth,
    {
        let t = self.task(slot);
        assert(self.tasks[slot as int].waiting_sem == 0 || self.tasks[slot as int].waiting_mutex
            == 0);
        if t.state == State::Blocked && t.waiting_sem == 0 && t.waiting_mutex != 0 && self.overdue(
            slot,
            now,
        ) {
            self.lemma_mutex_donation_left(slot);
            let left = self.dequeued(64 + t.waiting_mutex - 1, slot);
            let d = self.mutex_donation_left(slot);
            assert(d.tasks[x as int] == (Tcb {
                priority: d.tasks[x as int].priority,
                inherited_waiters: d.tasks[x as int].inherited_waiters,
                ..left.tasks[x as int]
            }));
        }
    }

    proof fn lemma_woken_upto_roused(self, now: u64, n: nat, x: usize)
        requires
            self.coherent(),
            n <= TASK_SLOT_COUNT,
            x < TASK_SLOT_COUNT,
        ensures
            x < n ==> roused_at(self.task(x), self.woken_upto(now, n).task(x), now),
            x >= n ==> same_but_priority(self.task(x), self.woken_upto(now, n).task(x)),
            self.woken_upto(now, n).sem_counts == self.sem_counts,
            self.woken_upto(now, n).mutex_owner == self.mutex_owner,
            self.woken_upto(now, n).mutex_depth == self.mutex_depth,
        decreases n,
    {
        if n > 0 {
            self.lemma_woken_upto_roused(now, (n - 1) as nat, x);
            self.lemma_woken_upto(now, (n - 1) as nat);
            self.woken_upto(now, (n - 1) as nat).lemma_woken_roused((n - 1) as usize, now, x);
        }
    }

    /// What looking for quotas to renew at `now` makes of a task.
    spec fn renewed_at(before: Tcb, after: Tcb, now: u64) -> bool {
        if before.state == State::Throttled && before.budget.spec is Some
            && !before.budget.lock_overrun_pending && now >= before.budget.replenishes_at {
            &&& after == (Tcb {
                state: State::Ready,
                budget: after.budget,
                metrics: after.metrics,
                ..before
            })
            &&& after.budget.spec == before.budget.spec
            &&& after.budget.remaining == before.budget.spec->0.capacity_ms()
            &&& after.budget.running_since == before.budget.running_since
            &&& !after.budget.lock_overrun_pending
        } else {
            after == before
        }
    }

    proof fn lemma_replenished_upto_renewed(self, now: u64, n: nat, x: usize)
        requires
            self.fits(),
            n <= TASK_SLOT_COUNT,
            x < TASK_SLOT_COUNT,
        ensures
            self.replenished_upto(now, n).tasks.len() == TASK_SLOT_COUNT,
            x < n ==> Self::renewed_at(self.task(x), self.replenished_upto(now, n).task(x), now),
            x >= n ==> self.replenished_upto(now, n).task(x) == self.task(x),
            self.replenished_upto(now, n).sem_counts == self.sem_counts,
            self.replenished_upto(now, n).mutex_owner == self.mutex_owner,
            self.replenished_upto(now, n).mutex_depth == self.mutex_depth,
        decreases n,
    {
        if n > 0 {
            self.lemma_replenished_upto_renewed(now, (n - 1) as nat, x);
        }
    }

    // ---- An examination ------------------------------------------------------------
    /// Examining the tasks at `now` makes ready whoever slept or waited until then, and
    /// whoever was throttled until then, the latter with a full quota. Whatever is not over
    /// by `now` goes on as it was, and every other task keeps its state. No semaphore is
    /// counted up or down, and no mutex changes hands.
    pub proof fn law_examination_serves_what_is_due(self, slot: usize, now: u64)
        requires
            self.coherent(),
            slot < TASK_SLOT_COUNT,
        ensures
            ({
                let t = self.tasks[slot as int];
                let m = self.all_woken(now);
                let u = m.tasks[slot as int];
                let timed = t.wake_at != 0 && now >= t.wake_at;
                let waits = t.waiting_sem != 0 || t.waiting_mutex != 0;
                let renewed = t.budget.spec is Some && !t.budget.lock_overrun_pending && now
                    >= t.budget.replenishes_at;
                &&& t.state == State::Sleeping && now >= t.wake_at ==> u.state == State::Ready
                &&& t.state == State::Sleeping && now < t.wake_at ==> u.state == State::Sleeping
                    && u.wake_at == t.wake_at
                &&& t.state == State::Blocked && waits && timed ==> {
                    &&& u.state == State::Ready
                    &&& u.waiting_sem == 0 && u.waiting_mutex == 0
                    &&& !u.sem_granted
                    &&& u.wake_at == 0
                    &&& forall|q: int| 32 <= q < 96 ==> !(#[trigger] m.queues[q]).contains(slot)
                }
                &&& t.state == State::Blocked && !(waits && timed) ==> {
                    &&& u.state == State::Blocked
                    &&& u.waiting_sem == t.waiting_sem && u.waiting_mutex == t.waiting_mutex
                    &&& u.wake_at == t.wake_at
                    &&& t.waiting_sem != 0 ==> m.queues[31 + t.waiting_sem].contains(slot)
                    &&& t.waiting_mutex != 0 ==> m.queues[63 + t.waiting_mutex].contains(slot)
                }
                &&& t.state == State::Throttled && renewed ==> {
                    &&& u.state == State::Ready
                    &&& u.budget.remaining == t.budget.spec->0.capacity_ms()
                    &&& u.budget.spec == t.budget.spec
                }
                &&& t.state == State::Throttled && !renewed ==> u.state == State::Throttled
                    && u.budget == t.budget
                &&& t.state != State::Throttled ==> u.budget == t.budget
                &&& t.state == State::Free || t.state == State::Ready || t.state == State::Running
                    ==> u.state == t.state
                &&& u.granted_sem == t.granted_sem && u.granted_mutex == t.granted_mutex
                &&& u.run_policy == t.run_policy && u.base_priority == t.base_priority
                &&& m.sem_counts == self.sem_counts
                &&& m.mutex_owner == self.mutex_owner
                &&& m.mutex_depth == self.mutex_depth
                &&& m.current == self.current
            }),
    {
        let w = self.woken_upto(now, TASK_SLOT_COUNT as nat);
        let m = self.all_woken(now);
        self.lemma_woken_upto_roused(now, TASK_SLOT_COUNT as nat, slot);
        self.lemma_woken_upto(now, TASK_SLOT_COUNT as nat);
        w.lemma_replenished_upto_renewed(now, TASK_SLOT_COUNT as nat, slot);
        self.lemma_all_woken(now);
        self.lemma_all_woken_stirred(now);
        assert(self.tasks[slot as int] == self.task(slot));
        assert(m.tasks[slot as int] == m.task(slot));
        assert(w.tasks[slot as int] == w.task(slot));
        assert forall|q: int| 32 <= q < 96 && m.task(slot).waiting_sem == 0 && m.task(
            slot,
        ).waiting_mutex == 0 implies !(#[trigger] m.queues[q]).contains(slot) by {
            if m.queues[q].contains(slot) {
                m.law_state_tells_the_queue(q, slot);
            }
        }
    }

    // ---- Examinations one after the other ------------------------------------------
    /// The tasks have been examined at each of these times, one after the other.
    pub open spec fn examined(self, times: Seq<u64>) -> SchedModel
        decreases times.len(),
    {
        if times.len() == 0 {
            self
        } else {
            self.examined(times.drop_last()).all_woken(times.last())
        }
    }

    /// A sleep or wait that is over at none of the times goes on.
    proof fn lemma_pause_goes_on(self, slot: usize, times: Seq<u64>)
        requires
            self.coherent(),
            slot < TASK_SLOT_COUNT,
            self.task(slot).state == State::Sleeping || (self.task(slot).state == State::Blocked
                && (self.task(slot).waiting_sem != 0 || self.task(slot).waiting_mutex != 0)),
            forall|i: int|
                #![trigger times[i]]
                0 <= i < times.len() ==> times[i] < self.task(slot).wake_at || (self.task(
                    slot,
                ).state == State::Blocked && self.task(slot).wake_at == 0),
        ensures
            self.examined(times).coherent(),
            self.examined(times).task(slot).state == self.task(slot).state,
            self.examined(times).task(slot).wake_at == self.task(slot).wake_at,
            self.examined(times).task(slot).waiting_sem == self.task(slot).waiting_sem,
            self.examined(times).task(slot).waiting_mutex == self.task(slot).waiting_mutex,
            self.examined(times).task(slot).granted_sem == self.task(slot).granted_sem,
            self.examined(times).task(slot).granted_mutex == self.task(slot).granted_mutex,
            self.examined(times).current == self.current,
            self.examined(times).sem_counts == self.sem_counts,
            self.examined(times).mutex_owner == self.mutex_owner,
        decreases times.len(),
    {
        if times.len() > 0 {
            let before = times.drop_last();
            assert forall|i: int|
                #![trigger before[i]]
                0 <= i < before.len() implies before[i] < self.task(slot).wake_at || (self.task(
                slot,
            ).state == State::Blocked && self.task(slot).wake_at == 0) by {
                assert(before[i] == times[i]);
            }
            self.lemma_pause_goes_on(slot, before);
            let m = self.examined(before);
            assert(times[times.len() - 1] == times.last());
            m.law_examination_serves_what_is_due(slot, times.last());
            m.lemma_all_woken(times.last());
        }
    }

    proof fn lemma_slept(self, wake_at: u64)
        requires
            self.coherent(),
            self.task(self.current).state == State::Running,
        ensures
            self.slept(wake_at).coherent(),
    {
        let d = self.slept(wake_at);
        let m = SchedModel { tasks: self.tasks, ..d };
        self.lemma_coherent_frame(m);
        assert(m.tasks[self.current as int].base_priority < 32);
        m.lemma_unqueued_when_idle_state(self.current);
        m.lemma_tweak_coherent(self.current, d.task(self.current));
        assert(m.with_task(self.current, d.task(self.current)) =~= d);
    }

    /// A task that goes to sleep at `now` for `milliseconds` is granted that sleep. It still
    /// sleeps after any examinations before `now + milliseconds`, and is ready after the
    /// next one at that time or later, as far as the clock reaches.
    pub proof fn law_sleep_lasts_as_asked(
        self,
        milliseconds: u32,
        now: u64,
        times: Seq<u64>,
        later: u64,
    )
        requires
            self.coherent(),
            self.task(self.current).state == State::Running,
            self.task(self.current).scheduler_lock_depth == 0,
            milliseconds > 0,
            forall|i: int|
                #![trigger times[i]]
                0 <= i < times.len() ==> times[i] < now + milliseconds && times[i] < u64::MAX,
        ensures
            ({
                let slot = self.current;
                let (asleep, answer) = self.sleep_request(milliseconds, true, now);
                let before = asleep.examined(times);
                &&& answer == Ok::<SleepStep, DriverError>(SleepStep::Asleep(slot))
                &&& before.tasks[slot as int].state == State::Sleeping
                &&& later >= now + milliseconds ==> before.all_woken(
                    later,
                ).tasks[slot as int].state == State::Ready
            }),
    {
        let slot = self.current;
        let asleep = self.sleep_request(milliseconds, true, now).0;
        self.lemma_slept(asleep.task(slot).wake_at);
        asleep.lemma_pause_goes_on(slot, times);
        asleep.examined(times).law_examination_serves_what_is_due(slot, later);
    }

    /// A wait for a semaphore that starts at `now` with a timeout of `timeout_ms` goes on
    /// through any examinations before `now + timeout_ms`, and the next one at that time or
    /// later ends it without a grant, as far as the clock reaches. Without a timeout no
    /// examination ends it.
    pub proof fn law_semaphore_wait_lasts_as_asked(
        self,
        sem: int,
        timeout_ms: u32,
        now: u64,
        times: Seq<u64>,
        later: u64,
    )
        requires
            self.coherent(),
            0 <= sem < 32,
            self.task(self.current).state == State::Running,
            self.task(self.current).scheduler_lock_depth == 0,
            self.sem_counts[sem] <= 0,
            timeout_ms > 0,
            timeout_ms < u32::MAX ==> forall|i: int|
                #![trigger times[i]]
                0 <= i < times.len() ==> times[i] < now + timeout_ms && times[i] < u64::MAX,
        ensures
            ({
                let slot = self.current;
                let (parked, answer) = self.sem_down(sem, timeout_ms, now, true);
                let before = parked.examined(times);
                let after = before.all_woken(later);
                &&& answer == Ok::<WaitStep, DriverError>(WaitStep::Blocked(slot))
                &&& before.tasks[slot as int].state == State::Blocked
                &&& before.queues[32 + sem].contains(slot)
                &&& timeout_ms < u32::MAX && later >= now + timeout_ms ==> {
                    &&& after.tasks[slot as int].state == State::Ready
                    &&& !after.tasks[slot as int].sem_granted
                    &&& after.tasks[slot as int].granted_sem == self.tasks[slot as int].granted_sem
                    &&& !after.queues[32 + sem].contains(slot)
                    &&& after.sem_counts[sem] == self.sem_counts[sem]
                }
                &&& timeout_ms == u32::MAX ==> {
                    &&& after.tasks[slot as int].state == State::Blocked
                    &&& after.queues[32 + sem].contains(slot)
                }
            }),
    {
        let slot = self.current;
        let parked = self.sem_down(sem, timeout_ms, now, true).0;
        self.lemma_unqueued_when_idle_state(slot);
        self.lemma_sem_blocked(sem, parked.task(slot).wake_at);
        parked.lemma_pause_goes_on(slot, times);
        parked.examined(times).law_examination_serves_what_is_due(slot, later);
    }

    /// A wait for a mutex that starts at `now` with a timeout of `timeout_ms` goes on
    /// through any examinations before `now + timeout_ms`, and the next one at that time or
    /// later ends it without the mutex, as far as the clock reaches. Without a timeout no
    /// examination ends it.
    pub proof fn law_mutex_wait_lasts_as_asked(
        self,
        mutex: int,
        timeout_ms: u32,
        now: u64,
        times: Seq<u64>,
        later: u64,
    )
        requires
            self.coherent(),
            0 <= mutex < 32,
            self.task(self.current).state == State::Running,
            self.mutex_lock(mutex, timeout_ms, now, true).1 == Ok::<WaitStep, DriverError>(
                WaitStep::Blocked(self.current),
            ),
            timeout_ms < u32::MAX ==> forall|i: int|
                #![trigger times[i]]
                0 <= i < times.len() ==> times[i] < now + timeout_ms && times[i] < u64::MAX,
        ensures
            ({
                let slot = self.current;
                let parked = self.mutex_lock(mutex, timeout_ms, now, true).0;
                let before = parked.examined(times);
                let after = before.all_woken(later);
                &&& before.tasks[slot as int].state == State::Blocked
                &&& before.queues[64 + mutex].contains(slot)
                &&& timeout_ms < u32::MAX && later >= now + timeout_ms ==> {
                    &&& after.tasks[slot as int].state == State::Ready
                    &&& !after.tasks[slot as int].sem_granted
                    &&& after.tasks[slot as int].granted_mutex
                        == self.tasks[slot as int].granted_mutex
                    &&& !after.queues[64 + mutex].contains(slot)
                    &&& after.mutex_owner[mutex] == self.mutex_owner[mutex]
                }
                &&& timeout_ms == u32::MAX ==> {
                    &&& after.tasks[slot as int].state == State::Blocked
                    &&& after.queues[64 + mutex].contains(slot)
                }
            }),
    {
        let slot = self.current;
        let parked = self.mutex_lock(mutex, timeout_ms, now, true).0;
        self.lemma_unqueued_when_idle_state(slot);
        self.lemma_mutex_lock_parks(mutex, timeout_ms, now);
        parked.lemma_pause_goes_on(slot, times);
        parked.examined(times).law_examination_serves_what_is_due(slot, later);
    }

    /// Parking on a mutex leaves the caller blocked in its queue until its deadline.
    proof fn lemma_mutex_lock_parks(self, mutex: int, timeout_ms: u32, now: u64)
        requires
            self.coherent(),
            0 <= mutex < 32,
            self.task(self.current).state == State::Running,
            self.mutex_lock(mutex, timeout_ms, now, true).1 == Ok::<WaitStep, DriverError>(
                WaitStep::Blocked(self.current),
            ),
        ensures
            ({
                let parked = self.mutex_lock(mutex, timeout_ms, now, true).0;
                let t = parked.task(self.current);
                &&& parked.coherent()
                &&& t.state == State::Blocked
                &&& t.wake_at == semaphore::wait_deadline(timeout_ms, now)
                &&& t.waiting_mutex == mutex + 1
                &&& t.waiting_sem == 0
                &&& t.granted_mutex == self.task(self.current).granted_mutex
                &&& parked.mutex_owner == self.mutex_owner
                &&& parked.current == self.current
                &&& parked.queues[64 + mutex].contains(self.current)
            }),
    {
        let slot = self.current;
        let at = semaphore::wait_deadline(timeout_ms, now);
        let m = self.mutex_parked(mutex, at);
        let n = self.mutex_lock(mutex, timeout_ms, now, true).0;
        self.lemma_unqueued_when_idle_state(slot);
        self.lemma_mutex_blocked(mutex, at);
        m.lemma_inheritance_added_posed(self.mutex_owner[mutex], self.task(slot).priority);
        assert(m.task(slot).waiting_mutex == mutex + 1);
        assert(n.task(slot).state == m.task(slot).state);
    }

    // ---- Circles -------------------------------------------------------------------
    /// Each task of `path` waits for a mutex that the following one owns.
    pub open spec fn waits_along(self, path: Seq<usize>) -> bool {
        forall|i: int|
            #![trigger path[i]]
            0 <= i < path.len() - 1 ==> {
                &&& path[i] < TASK_SLOT_COUNT
                &&& self.tasks[path[i] as int].waiting_mutex != 0
                &&& self.mutex_owner[self.tasks[path[i] as int].waiting_mutex - 1] == path[i + 1]
            }
    }

    /// Some path of waits leads from `from` to `to`.
    pub open spec fn waits_lead(self, from: usize, to: usize) -> bool {
        exists|path: Seq<usize>|
            path.len() > 0 && path[0] == from && path.last() == to && #[trigger] self.waits_along(
                path,
            )
    }

    /// Looking along the chain of owners finds no end, or a path.
    proof fn lemma_chain_gives_path(self, start: usize, sought: usize, fuel: nat)
        requires
            self.fits(),
            start < TASK_SLOT_COUNT,
            self.chain_live(start, fuel),
            self.chain_contains(start, sought, fuel),
        ensures
            self.waits_lead(start, sought),
        decreases fuel,
    {
        if start == sought {
            let path = seq![start];
            assert(path.last() == sought);
            assert(self.waits_along(path));
        } else {
            let w = self.task(start).waiting_mutex;
            assert(self.tasks[start as int].waiting_mutex <= 32);
            let owner = self.blocker(start)->0;
            assert(owner == self.mutex_owner[w - 1]);
            self.lemma_chain_gives_path(owner, sought, (fuel - 1) as nat);
            let rest = choose|path: Seq<usize>|
                path.len() > 0 && path[0] == owner && path.last() == sought
                    && #[trigger] self.waits_along(path);
            let path = seq![start] + rest;
            assert(path[0] == start);
            assert(path.last() == rest.last());
            assert forall|i: int|
                #![trigger path[i]]
                0 <= i < path.len() - 1 implies {
                &&& path[i] < TASK_SLOT_COUNT
                &&& self.tasks[path[i] as int].waiting_mutex != 0
                &&& self.mutex_owner[self.tasks[path[i] as int].waiting_mutex - 1] == path[i + 1]
            } by {
                if i > 0 {
                    assert(path[i] == rest[i - 1]);
                    assert(path[i + 1] == rest[i]);
                } else {
                    assert(path[1] == rest[0]);
                }
            }
            assert(self.waits_along(path));
        }
    }

    /// A path is found by looking along the chain of owners.
    proof fn lemma_path_is_found(self, path: Seq<usize>, fuel: nat)
        requires
            self.fits(),
            path.len() > 0,
            path.last() < TASK_SLOT_COUNT,
            self.waits_along(path),
        ensures
            self.chain_contains(path[0], path.last(), fuel),
        decreases path.len(),
    {
        if fuel > 0 && path[0] != path.last() {
            let rest = path.drop_first();
            let w = self.task(path[0]).waiting_mutex;
            assert(self.tasks[path[0] as int].waiting_mutex <= 32);
            assert(rest[0] == path[1]);
            assert(rest.last() == path.last());
            assert(self.mutex_owner[w - 1] == path[1]);
            assert forall|i: int|
                #![trigger rest[i]]
                0 <= i < rest.len() - 1 implies {
                &&& rest[i] < TASK_SLOT_COUNT
                &&& self.tasks[rest[i] as int].waiting_mutex != 0
                &&& self.mutex_owner[self.tasks[rest[i] as int].waiting_mutex - 1] == rest[i + 1]
            } by {
                assert(rest[i] == path[i + 1]);
                assert(rest[i + 1] == path[i + 2]);
            }
            assert(rest[0] < TASK_SLOT_COUNT) by {
                if rest.len() == 1 {
                    assert(rest[0] == rest.last());
                }
            }
            self.lemma_path_is_found(rest, (fuel - 1) as nat);
        }
    }

    /// A wait for a mutex of another task is refused as a circle exactly if some path of
    /// waits leads from the owner back to the caller. Otherwise, wherever a task may block
    /// at all, the caller waits in the queue of the mutex.
    pub proof fn law_only_circles_are_refused(self, mutex: int, timeout_ms: u32, now: u64)
        requires
            self.coherent(),
            0 <= mutex < 32,
            self.task(self.current).state == State::Running,
            self.task(self.current).scheduler_lock_depth == 0,
            self.mutex_owner[mutex] != NIL,
            self.mutex_owner[mutex] != self.current,
            timeout_ms > 0,
        ensures
            ({
                let slot = self.current;
                let (after, answer) = self.mutex_lock(mutex, timeout_ms, now, true);
                if self.waits_lead(self.mutex_owner[mutex], slot) {
                    &&& answer == Err::<WaitStep, DriverError>(DriverError::InvalidContext)
                    &&& after == self
                } else {
                    &&& answer == Ok::<WaitStep, DriverError>(WaitStep::Blocked(slot))
                    &&& after.queues[64 + mutex].contains(slot)
                    &&& after.tasks[slot as int].state == State::Blocked
                    &&& after.tasks[slot as int].waiting_mutex == mutex + 1
                    &&& after.mutex_owner == self.mutex_owner
                }
            }),
    {
        let slot = self.current;
        let owner = self.mutex_owner[mutex];
        assert(self.chain_live(owner, TASK_SLOT_COUNT as nat));
        if self.waits_lead(owner, slot) {
            let path = choose|path: Seq<usize>|
                path.len() > 0 && path[0] == owner && path.last() == slot
                    && #[trigger] self.waits_along(path);
            self.lemma_path_is_found(path, TASK_SLOT_COUNT as nat);
        } else {
            if self.chain_contains(owner, slot, TASK_SLOT_COUNT as nat) {
                self.lemma_chain_gives_path(owner, slot, TASK_SLOT_COUNT as nat);
            }
            self.lemma_mutex_lock_parks(mutex, timeout_ms, now);
        }
    }

    /// Whoever is reached along the waits of a task runs at its priority or better, be it
    /// through one mutex or through several.
    pub proof fn law_priority_reaches_along_the_waits(self, path: Seq<usize>)
        requires
            self.orderly(),
            path.len() > 0,
            path[0] < TASK_SLOT_COUNT,
            self.waits_along(path),
        ensures
            self.tasks[path.last() as int].priority <= self.tasks[path[0] as int].priority,
        decreases path.len(),
    {
        if path.len() > 1 {
            let before = path.drop_last();
            assert forall|i: int|
                #![trigger before[i]]
                0 <= i < before.len() - 1 implies {
                &&& before[i] < TASK_SLOT_COUNT
                &&& self.tasks[before[i] as int].waiting_mutex != 0
                &&& self.mutex_owner[self.tasks[before[i] as int].waiting_mutex - 1]
                    == before[i + 1]
            } by {
                assert(before[i] == path[i]);
                assert(before[i + 1] == path[i + 1]);
            }
            assert(before[0] == path[0]);
            self.law_priority_reaches_along_the_waits(before);
            let k = path.len() - 2;
            let waiter = path[k];
            let owner = path[k + 1];
            assert(waiter == before.last());
            assert(self.tasks[waiter as int].waiting_mutex <= 32);
            assert(self.task(waiter).waiting_mutex != 0);
            assert(self.mutex_owner[self.task(waiter).waiting_mutex - 1] != NIL);
            assert(self.waits_for(waiter, owner));
            self.law_effective_priority_is_the_best(owner);
        }
    }

    /// The caller itself keeps its priority when it starts to wait.
    proof fn lemma_parked_keeps_priority(self, mutex: int, timeout_ms: u32, now: u64)
        requires
            self.coherent(),
            0 <= mutex < 32,
            self.task(self.current).state == State::Running,
            self.mutex_lock(mutex, timeout_ms, now, true).1 == Ok::<WaitStep, DriverError>(
                WaitStep::Blocked(self.current),
            ),
        ensures
            self.mutex_lock(mutex, timeout_ms, now, true).0.task(self.current).priority
                == self.task(self.current).priority,
    {
        let slot = self.current;
        let owner = self.mutex_owner[mutex];
        let p = self.task(slot).priority;
        let n = self.mutex_lock(mutex, timeout_ms, now, true).0;
        let m = self.mutex_parked(mutex, semaphore::wait_deadline(timeout_ms, now));
        let d = m.donated(owner, p);
        let fuel = TASK_SLOT_COUNT as nat;
        self.lemma_mutex_lock_parks(mutex, timeout_ms, now);
        self.lemma_unqueued_when_idle_state(slot);
        self.lemma_mutex_blocked(mutex, semaphore::wait_deadline(timeout_ms, now));
        m.lemma_inheritance_added_posed(owner, p);
        assert(n.chain_live(slot, fuel));
        assert(n.blocker(slot) == Some(owner));
        n.lemma_no_return(slot, owner, fuel + 1, fuel);
        assert forall|x: usize| x < TASK_SLOT_COUNT implies (#[trigger] d.task(x)).waiting_mutex
            == n.task(x).waiting_mutex by {
            assert(n.task(x).waiting_mutex == m.task(x).waiting_mutex);
        }
        n.lemma_same_hits(d, owner, slot, fuel + 1);
        d.lemma_refreshed_untouched(owner, slot, fuel);
    }

    /// A task that waits for a mutex donates its priority to the owner, and to everyone
    /// whom the owner waits for in turn.
    pub proof fn law_waiting_donates_along_the_waits(
        self,
        mutex: int,
        timeout_ms: u32,
        now: u64,
        path: Seq<usize>,
    )
        requires
            self.orderly(),
            0 <= mutex < 32,
            self.task(self.current).state == State::Running,
            self.mutex_lock(mutex, timeout_ms, now, true).1 == Ok::<WaitStep, DriverError>(
                WaitStep::Blocked(self.current),
            ),
            path.len() > 0,
            path[0] == self.mutex_owner[mutex],
            self.waits_along(path),
        ensures
            self.mutex_lock(mutex, timeout_ms, now, true).0.tasks[path.last() as int].priority
                <= self.tasks[self.current as int].priority,
    {
        let slot = self.current;
        let n = self.mutex_lock(mutex, timeout_ms, now, true).0;
        let at = semaphore::wait_deadline(timeout_ms, now);
        let m = self.mutex_parked(mutex, at);
        let whole = seq![slot] + path;
        self.law_mutex_lock_keeps_order(mutex, timeout_ms, now, true);
        self.lemma_mutex_lock_parks(mutex, timeout_ms, now);
        m.lemma_inheritance_added_posed(self.mutex_owner[mutex], self.task(slot).priority);
        assert forall|i: int|
            #![trigger whole[i]]
            0 <= i < whole.len() - 1 implies {
            &&& whole[i] < TASK_SLOT_COUNT
            &&& n.tasks[whole[i] as int].waiting_mutex != 0
            &&& n.mutex_owner[n.tasks[whole[i] as int].waiting_mutex - 1] == whole[i + 1]
        } by {
            if i > 0 {
                assert(whole[i] == path[i - 1]);
                assert(whole[i + 1] == path[i]);
                let x = path[i - 1];
                if x != slot {
                    assert(m.task(x) == self.task(x));
                } else {
                    self.lemma_unqueued_when_idle_state(slot);
                }
                assert(n.task(x).waiting_mutex == m.task(x).waiting_mutex);
            }
        }
        n.law_priority_reaches_along_the_waits(whole);
        assert(whole.last() == path.last());
        assert(n.task(slot).priority == self.task(slot).priority) by {
            self.lemma_parked_keeps_priority(mutex, timeout_ms, now);
        }
    }
}

} // verus!
