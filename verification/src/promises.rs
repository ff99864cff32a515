//! What the scheduler promises of its choices.
use vstd::prelude::*;
use crate::config::{ContractViolation, IDLE_SLOT, NIL, TASK_SLOT_COUNT};
use crate::donation;
use crate::error::{DriverError, TaskId, TaskReservation, WaitCancellationOutcome};
use crate::identity;
use crate::lifecycle::SpawnRequest;
use crate::model::SchedModel;
use crate::reservation::ReservedStack;
use crate::scheduling::{BudgetState, RunPolicy};
use crate::semaphore::WaitStep;
use crate::task::{State, Tcb};

verus! {

impl SchedModel {
    // ---- Queues ----------------------------------------------------------------
    /// A task is in at most one ready or wait queue, and in it only once.
    pub proof fn law_task_is_in_at_most_one_queue(self, p: int, q: int, slot: usize)
        requires
            self.coherent(),
            0 <= p < 96,
            0 <= q < 96,
            self.queues[p].contains(slot),
            self.queues[q].contains(slot),
        ensures
            p == q,
            self.queues[p].no_duplicates(),
    {
    }

    /// The state of a task tells where it can be queued: a ready task in its own ready
    /// queue only, a blocked task in the queue of what it waits for, any other task
    /// nowhere. A throttled task is therefore never chosen.
    pub proof fn law_state_tells_the_queue(self, q: int, slot: usize)
        requires
            self.coherent(),
            0 <= q < 96,
            self.queues[q].contains(slot),
        ensures
            slot < TASK_SLOT_COUNT,
            q < 32 ==> self.task(slot).state == State::Ready && q == self.ready_key(slot),
            32 <= q < 64 ==> self.task(slot).state == State::Blocked && self.task(
                slot,
            ).waiting_sem == q - 31,
            64 <= q ==> self.task(slot).state == State::Blocked && self.task(slot).waiting_mutex
                == q - 63,
    {
        self.lemma_member_is_task(q, slot);
        assert(self.tasks[slot as int].priority < 32);
        assert(self.tasks[slot as int].waiting_sem <= 32);
        assert(self.tasks[slot as int].waiting_mutex <= 32);
        assert(q == self.home(slot));
    }

    /// The task that is taken next is the first of the best level: no ready task has a
    /// better effective priority, and those of the same level queue behind it.
    pub proof fn law_next_task_is_best(self, slot: usize)
        requires
            self.coherent(),
            slot < TASK_SLOT_COUNT,
            self.ready_queued(slot),
        ensures
            self.pop_slot() < TASK_SLOT_COUNT,
            self.task(self.pop_slot()).state == State::Ready,
            self.ready_key(self.pop_slot()) <= self.ready_key(slot),
            self.queues[self.ready_key(self.pop_slot())][0] == self.pop_slot(),
            self.policy is None ==> self.task(self.pop_slot()).priority <= self.task(slot).priority,
    {
        assert(self.tasks[slot as int].priority < 32);
        let key = self.ready_key(slot);
        assert(self.queues[key].len() > 0) by {
            let i = choose|i: int|
                0 <= i < self.queues[key].len() && self.queues[key][i] == slot;
            assert(self.queues[key][i] == slot);
        }
        self.lemma_first_ready(0);
        self.lemma_first_ready_least(0, key);
        let level = self.first_ready()->0;
        assert(self.queues[level].contains(self.queues[level][0]));
        self.law_state_tells_the_queue(level, self.pop_slot());
    }

    proof fn lemma_first_ready_least(self, from: int, level: int)
        requires
            0 <= from <= level < 32,
            self.queues[level].len() > 0,
        ensures
            self.first_ready_from(from) is Some,
            from <= self.first_ready_from(from)->0 <= level,
            self.queues[self.first_ready_from(from)->0].len() > 0,
        decreases level - from,
    {
        if self.queues[from].len() == 0 {
            self.lemma_first_ready_least(from + 1, level);
        }
    }

    /// The idle thread is in no ready queue, and is chosen exactly when nothing else is
    /// ready: with it there is always a task to run.
    pub proof fn law_idle_is_the_last_resort(self)
        requires
            self.coherent(),
            self.idle_unqueued(),
            self.policy is None,
        ensures
            !self.ready_queued(IDLE_SLOT),
            self.pop_or_idle_slot() != NIL,
            self.pop_or_idle_slot() == IDLE_SLOT <==> forall|slot: usize|
                slot < TASK_SLOT_COUNT ==> !(#[trigger] self.ready_queued(slot)),
    {
        self.lemma_popped_coherent();
        self.lemma_first_ready(0);
        assert(self.tasks[IDLE_SLOT as int].priority < 32);
        if self.pop_or_idle_slot() == IDLE_SLOT {
            assert forall|slot: usize| slot < TASK_SLOT_COUNT implies !(
            #[trigger] self.ready_queued(slot)) by {
                if self.ready_queued(slot) {
                    self.law_next_task_is_best(slot);
                    let level = self.first_ready()->0;
                    assert(self.queues[level].contains(self.queues[level][0]));
                }
            }
        } else {
            let level = self.first_ready()->0;
            let slot = self.queues[level][0];
            assert(self.queues[level].contains(slot));
            self.law_state_tells_the_queue(level, slot);
            assert(self.ready_queued(slot));
        }
    }

    /// A task that becomes ready queues behind its equals.
    pub proof fn law_ready_queue_is_first_come(self, slot: usize)
        ensures
            self.pushed(slot).queues == self.queues.update(
                self.ready_key(slot),
                self.queues[self.ready_key(slot)].push(slot),
            ),
    {
    }

    /// A yielding task hands over to the best other ready task, whatever its own
    /// priority, and queues behind its equals.
    pub proof fn law_yield_prefers_others(self, now: u64)
        requires
            self.coherent(),
            self.task(self.current).state == State::Running,
            self.pop_slot() != NIL,
        ensures
            self.yielded(self.current, now).1 == Some(self.pop_slot()),
            self.pop_slot() != self.current,
            !self.is_idle(self.current) ==> ({
                let m = self.yielded(self.current, now).0;
                &&& m.ready_queued(self.current)
                &&& m.queues[m.ready_key(self.current)].last() == self.current
            }),
            self.is_idle(self.current) ==> self.yielded(self.current, now).0.loose(self.current),
    {
        self.lemma_popped_coherent();
        self.lemma_unqueued_when_idle_state(self.current);
        let p = self.popped();
        let m = self.yielded(self.current, now).0;
        assert(p.loose(self.current));
        assert(self.tasks[self.current as int].priority < 32);
        if !self.is_idle(self.current) {
            let key = p.ready_key(self.current);
            assert(m.ready_key(self.current) == key);
            assert(m.queues[key] == p.queues[key].push(self.current));
            assert(m.queues[key][m.queues[key].len() - 1] == self.current);
        } else {
            assert forall|q: int| 0 <= q < 96 implies !(#[trigger] m.queues[q]).contains(
                self.current,
            ) by {
                assert(!p.queues[q].contains(self.current));
            }
        }
    }

    // ---- Preemption --------------------------------------------------------------
    /// A cooperative or budgeted task is never preempted by ready tasks.
    pub proof fn law_cooperative_task_is_not_preempted(self, allow_equal: bool, now: u64)
        requires
            self.policy is None,
            !self.is_idle(self.current),
            !(self.task(self.current).run_policy is Preemptive),
        ensures
            self.rescheduled(allow_equal, now) == (self, None::<(usize, usize)>),
    {
        self.lemma_no_level_below_zero();
    }

    proof fn lemma_no_level_below_zero(self)
        ensures
            self.first_ready() matches Some(level) ==> level >= 0,
    {
        self.lemma_first_ready_at_least(0);
    }

    proof fn lemma_first_ready_at_least(self, from: int)
        ensures
            self.first_ready_from(from) matches Some(level) ==> level >= from,
        decreases 32 - from,
    {
        if from < 32 && self.queues[from].len() == 0 {
            self.lemma_first_ready_at_least(from + 1);
        }
    }

    /// A running idle thread gives way to any ready task at once.
    pub proof fn law_idle_gives_way(self, slot: usize, now: u64)
        requires
            self.coherent(),
            self.is_idle(self.current),
            self.task(self.current).state == State::Running,
            self.task(self.current).scheduler_lock_depth == 0,
            slot < TASK_SLOT_COUNT,
            self.ready_queued(slot),
        ensures
            self.rescheduled(false, now).1 == Some((self.current, self.pop_slot())),
    {
        self.law_next_task_is_best(slot);
        self.lemma_first_ready(0);
    }

    /// A preemptive task gives way to a ready task of better priority at once, and to one
    /// of the same priority when its time slice is over; never to a worse one.
    pub proof fn law_preemption_follows_priority(self, allow_equal: bool, now: u64)
        requires
            self.coherent(),
            self.policy is None,
            !self.is_idle(self.current),
            self.task(self.current).state == State::Running,
            self.task(self.current).scheduler_lock_depth == 0,
            self.task(self.current).run_policy is Preemptive,
        ensures
            match self.rescheduled(allow_equal, now).1 {
                Some((source, next)) => {
                    &&& source == self.current
                    &&& next == self.pop_slot()
                    &&& self.task(next).priority < self.task(source).priority || (allow_equal
                        && self.task(next).priority == self.task(source).priority)
                },
                None => forall|slot: usize|
                    slot < TASK_SLOT_COUNT && #[trigger] self.ready_queued(slot) ==> (self.task(
                        slot,
                    ).priority > self.task(self.current).priority || (!allow_equal && self.task(
                        slot,
                    ).priority == self.task(self.current).priority)),
            },
    {
        self.lemma_first_ready(0);
        self.lemma_popped_coherent();
        if self.takeover_due(allow_equal) {
            let level = self.first_ready()->0;
            assert(self.queues[level].contains(self.queues[level][0]));
            self.law_state_tells_the_queue(level, self.pop_slot());
        } else {
            assert forall|slot: usize|
                slot < TASK_SLOT_COUNT && #[trigger] self.ready_queued(slot) implies (self.task(
                slot,
            ).priority > self.task(self.current).priority || (!allow_equal && self.task(
                slot,
            ).priority == self.task(self.current).priority)) by {
                self.law_next_task_is_best(slot);
                let level = self.first_ready()->0;
                assert(self.queues[level].contains(self.queues[level][0]));
                self.law_state_tells_the_queue(level, self.pop_slot());
            }
        }
    }

    /// While the scheduler lock is held no ready task takes over, neither at a release
    /// nor at the end of an interrupt.
    pub proof fn law_no_switch_under_the_lock(self, depth: u16, now: u64)
        requires
            self.task(self.current).state == State::Running,
            self.task(self.current).scheduler_lock_depth != 0,
            self.pending_switch is None,
        ensures
            self.rescheduled(true, now) == (self, None::<(usize, usize)>),
            self.rescheduled(false, now) == (self, None::<(usize, usize)>),
            self.irq_epilogue(depth, now) == (self, None::<(usize, usize)>),
            forall|frame: usize| self.trapped(frame, depth, now) == (self, frame),
    {
        self.lemma_no_level_below_zero();
    }

    /// The scheduler lock nests: an inner unlock neither switches nor ends the lock, and
    /// a lock and its unlock leave the depth as it was.
    pub proof fn law_scheduler_lock_nests(self, locked_at: u64, unlocked_at: u64)
        requires
            self.coherent(),
            self.task(self.current).scheduler_lock_depth < u16::MAX,
        ensures
            ({
                let cur = self.current;
                let before = self.task(cur);
                let n = self.locked(locked_at).unlocked(unlocked_at);
                &&& n.current == cur
                &&& n.task(cur).scheduler_lock_depth == before.scheduler_lock_depth
                &&& before.scheduler_lock_depth != 0 ==> {
                    &&& n.task(cur).scheduler_lock_started_at == before.scheduler_lock_started_at
                    &&& n.after_unlock(unlocked_at) == (n, None::<(usize, usize)>)
                }
                &&& before.scheduler_lock_depth == 0 ==> n.task(
                    cur,
                ).scheduler_lock_started_at is None
            }),
    {
        self.locked(locked_at).unlocked(unlocked_at).lemma_no_level_below_zero();
    }

    /// Inside an interrupt that interrupted another one nothing is switched.
    pub proof fn law_no_switch_inside_interrupts(self, frame: usize, depth: u16, now: u64)
        requires
            depth != 0,
        ensures
            self.irq_epilogue(depth, now) == (self, None::<(usize, usize)>),
            self.trapped(frame, depth, now) == (self, frame),
    {
    }

    /// Holding the scheduler lock, or without a way to deliver a switch, a task can
    /// neither block nor sleep nor yield: the request fails and changes nothing.
    pub proof fn law_refused_block_changes_nothing(
        self,
        object: int,
        timeout_ms: u32,
        milliseconds: u32,
        delivery: bool,
        now: u64,
    )
        requires
            !delivery || self.task(self.current).scheduler_lock_depth != 0,
            timeout_ms != 0,
        ensures
            self.sem_counts[object] <= 0 ==> self.sem_down(object, timeout_ms, now, delivery) == (
                self,
                Err::<WaitStep, DriverError>(DriverError::InvalidContext),
            ),
            self.mutex_owner[object] != NIL && self.mutex_owner[object] != self.current
                ==> self.mutex_lock(object, timeout_ms, now, delivery) == (
                self,
                Err::<WaitStep, DriverError>(DriverError::InvalidContext),
            ),
            self.yield_request(delivery, now).0 == self,
            self.yield_request(delivery, now).1 is Err,
            self.sleep_request(milliseconds, delivery, now).0 == self,
            self.sleep_request(milliseconds, delivery, now).1 is Err,
    {
    }

    /// A scheduler lock that has been held for its limit is reported by the next timer
    /// interrupt, and not before.
    pub proof fn law_lock_overrun_is_reported(self, now: u64, limit: u32, since: u64)
        requires
            self.coherent(),
            self.task(self.current).state == State::Running,
            self.task(self.current).scheduler_lock_started_at == Some(since),
            limit > 0,
        ensures
            now >= since + limit ==> (self.timer_fired(now, limit).1
                matches Some(ContractViolation::SchedulerLockOverrun {
                task_slot,
                held_ms,
                limit_ms,
            }) && task_slot == self.current && held_ms == now - since && limit_ms == limit),
            now < since + limit ==> self.timer_fired(now, limit).1 is None,
    {
        let woken = self.all_woken(now);
        self.lemma_all_woken_stirred(now);
        self.lemma_stirred_runner(woken);
        assert(woken.task(self.current).scheduler_lock_started_at == Some(since));
        assert(woken.charged(now).current == self.current);
        self.lemma_all_woken(now);
        assert(woken.charged(now).task(self.current).scheduler_lock_started_at == Some(since));
    }

    /// A new policy starts afresh: a throttled task is ready again with a full quota, and
    /// no deadline of the old policy is left.
    pub proof fn law_policy_change_starts_afresh(self, slot: usize, policy: RunPolicy, now: u64)
        requires
            self.coherent(),
            slot < TASK_SLOT_COUNT,
            self.task(slot).state == State::Throttled,
        ensures
            self.with_run_policy(slot, policy, now).task(slot).state == State::Ready,
            self.with_run_policy(slot, policy, now).task(slot).run_policy == policy,
            self.with_run_policy(slot, policy, now).task(slot).budget == BudgetState::fresh(
                policy,
                now,
            ),
            !self.is_idle(slot) ==> self.with_run_policy(slot, policy, now).ready_queued(slot),
    {
        let n = self.with_run_policy(slot, policy, now);
        assert(self.tasks[slot as int].priority < 32);
        if !self.is_idle(slot) {
            let key = self.ready_key(slot);
            assert(n.ready_key(slot) == key);
            assert(n.queues[key] == self.queues[key].push(slot));
            assert(n.queues[key][n.queues[key].len() - 1] == slot);
        }
    }

    /// A switch leaves no time slice of the old task behind.
    pub proof fn law_switch_ends_the_time_slice(
        self,
        previous: usize,
        next: usize,
        frame: usize,
        now: u64,
    )
        ensures
            self.trap_switched(previous, next, frame, now).time_slice_deadline == 0,
            previous != next ==> self.switched(previous, next, now).time_slice_deadline == 0,
    {
    }

    /// A pending switch is taken once.
    pub proof fn law_pending_switch_is_taken_once(self)
        ensures
            self.pending_consumed().pending_switch is None,
            self.pending_consumed().pending_consumed() == self.pending_consumed(),
    {
    }

    // ---- Semaphores ----------------------------------------------------------------
    /// Counts of a semaphore that nobody has used yet: free ones and granted ones that
    /// their task has not noticed.
    pub open spec fn permits(self, sem: int) -> int {
        self.sem_counts[sem] + donation::count(
            |slot: usize| self.task(slot).granted_sem == sem + 1,
            TASK_SLOT_COUNT as nat,
        )
    }

    /// A task that waits for a semaphore has no grant that it did not notice yet.
    pub open spec fn waiters_hold_no_grant(self) -> bool {
        forall|slot: usize|
            slot < TASK_SLOT_COUNT && (#[trigger] self.task(slot)).waiting_sem != 0 ==> self.task(
                slot,
            ).granted_sem == 0
    }

    /// Acquiring, releasing and cancelling a wait for a semaphore leave no waiting task
    /// with a grant.
    pub proof fn law_waiters_hold_no_grant(
        self,
        sem: int,
        slot: usize,
        timeout_ms: u32,
        now: u64,
        delivery: bool,
    )
        requires
            self.coherent(),
            self.waiters_hold_no_grant(),
            0 <= sem < 32,
            slot < TASK_SLOT_COUNT,
            self.task(slot).waiting_mutex == 0,
            self.task(slot).waiting_sem != 0 || self.task(slot).granted_sem != 0,
        ensures
            self.task(self.current).granted_sem == 0 ==> self.sem_down(
                sem,
                timeout_ms,
                now,
                delivery,
            ).0.waiters_hold_no_grant(),
            self.sem_released(sem, now).waiters_hold_no_grant(),
            self.wait_cancelled(slot, now).0.waiters_hold_no_grant(),
    {
        self.lemma_released_hold_no_grant(sem, now);
        let t = self.task(slot);
        if t.waiting_sem == 0 && t.granted_sem != 0 {
            let t2 = Tcb { granted_sem: 0, sem_granted: false, ..t };
            let m = self.with_task(slot, t2);
            self.lemma_ready_queued_is_ready(slot);
            assert(self.tasks[slot as int].base_priority < 32);
            self.lemma_tweak_coherent(slot, t2);
            assert forall|x: usize|
                x < TASK_SLOT_COUNT && (#[trigger] m.task(x)).waiting_sem != 0 implies m.task(
                x,
            ).granted_sem == 0 by {
                if x != slot {
                    assert(m.task(x) == self.task(x));
                }
            }
            assert(self.tasks[slot as int].granted_sem <= 32);
            m.lemma_released_hold_no_grant(t.granted_sem - 1, now);
        } else {
            let n = self.wait_cancelled(slot, now).0;
            assert forall|x: usize|
                x < TASK_SLOT_COUNT && (#[trigger] n.task(x)).waiting_sem != 0 implies n.task(
                x,
            ).granted_sem == 0 by {
                assert(self.task(x).granted_sem == n.task(x).granted_sem);
                assert(self.task(x).waiting_sem != 0);
            }
        }
        let d = self.sem_down(sem, timeout_ms, now, delivery).0;
        if self.task(self.current).granted_sem == 0 {
            assert forall|x: usize|
                x < TASK_SLOT_COUNT && (#[trigger] d.task(x)).waiting_sem != 0 implies d.task(
                x,
            ).granted_sem == 0 by {
                assert(self.task(x).granted_sem == d.task(x).granted_sem);
            }
        }
    }

    proof fn lemma_released_hold_no_grant(self, sem: int, now: u64)
        requires
            self.coherent(),
            self.waiters_hold_no_grant(),
            0 <= sem < 32,
        ensures
            self.sem_released(sem, now).waiters_hold_no_grant(),
    {
        let n = self.sem_released(sem, now);
        if self.sem_waiters(sem).len() > 0 {
            let waiter = self.sem_waiters(sem)[0];
            assert(self.queues[32 + sem].contains(waiter));
            self.law_state_tells_the_queue(32 + sem, waiter);
            assert forall|x: usize|
                x < TASK_SLOT_COUNT && (#[trigger] n.task(x)).waiting_sem != 0 implies n.task(
                x,
            ).granted_sem == 0 by {
                if x != waiter {
                    assert(n.task(x) == self.task(x));
                }
            }
        } else {
            assert forall|x: usize|
                x < TASK_SLOT_COUNT && (#[trigger] n.task(x)).waiting_sem != 0 implies n.task(
                x,
            ).granted_sem == 0 by {
                assert(n.task(x) == self.task(x));
            }
        }
    }

    /// A grant goes to the waiter of best effective priority that has waited longest; it
    /// leaves the queue at once and its deadline with it, so that neither a timeout nor
    /// another task can take the grant away.
    pub proof fn law_semaphore_grant_goes_to_the_best_waiter(self, sem: int, i: int, now: u64)
        requires
            self.orderly(),
            0 <= sem < 32,
            0 <= i < self.sem_waiters(sem).len(),
        ensures
            ({
                let waiter = self.sem_waiters(sem)[0];
                let n = self.sem_released(sem, now);
                &&& self.task(waiter).priority <= self.task(self.sem_waiters(sem)[i]).priority
                &&& n.task(waiter).sem_granted
                &&& n.task(waiter).granted_sem == sem + 1
                &&& n.task(waiter).waiting_sem == 0
                &&& n.task(waiter).state == State::Ready
                &&& n.sem_counts == self.sem_counts
                &&& !n.sem_waiters(sem).contains(waiter)
                &&& n.woken(waiter, now) == n
                &&& forall|later: u64| n.woken(waiter, later) == n
            }),
    {
        let waiter = self.sem_waiters(sem)[0];
        let other = self.sem_waiters(sem)[i];
        let n = self.sem_released(sem, now);
        assert(self.queues[32 + sem].contains(waiter));
        self.law_state_tells_the_queue(32 + sem, waiter);
        assert(self.by_priority(32 + sem));
        self.law_semaphore_up_keeps_order(sem, now);
        if n.sem_waiters(sem).contains(waiter) {
            n.law_state_tells_the_queue(32 + sem, waiter);
        }
    }

    /// A wait that has timed out is over: its task is ready without a grant, and is no
    /// longer among those that a release could choose.
    pub proof fn law_timeout_ends_the_wait(self, slot: usize, sem: int, now: u64)
        requires
            self.coherent(),
            0 <= sem < 32,
            slot < TASK_SLOT_COUNT,
            self.task(slot).state == State::Blocked,
            self.task(slot).waiting_sem == sem + 1,
            self.overdue(slot, now),
        ensures
            ({
                let n = self.woken(slot, now);
                &&& n.task(slot).state == State::Ready
                &&& n.task(slot).waiting_sem == 0
                &&& !n.task(slot).sem_granted
                &&& !n.sem_waiters(sem).contains(slot)
                &&& n.sem_counts == self.sem_counts
            }),
    {
        let n = self.woken(slot, now);
        self.lemma_woken(slot, now);
        if n.sem_waiters(sem).contains(slot) {
            n.law_state_tells_the_queue(32 + sem, slot);
        }
    }

    /// Every release adds exactly one permit.
    pub proof fn law_release_adds_one_permit(self, sem: int, now: u64)
        requires
            self.coherent(),
            0 <= sem < 32,
            self.sem_releasable(sem),
            self.waiters_hold_no_grant(),
        ensures
            self.sem_released(sem, now).permits(sem) == self.permits(sem) + 1,
    {
        let n = self.sem_released(sem, now);
        let f = |slot: usize| self.task(slot).granted_sem == sem + 1;
        let g = |slot: usize| n.task(slot).granted_sem == sem + 1;
        if self.sem_waiters(sem).len() == 0 {
            assert forall|x: usize| x < TASK_SLOT_COUNT && x != 0 implies #[trigger] f(x) == g(
                x,
            ) by {}
            assert(n.task(0) == self.task(0));
            donation::lemma_count_change(f, g, 0, TASK_SLOT_COUNT as nat);
        } else {
            let waiter = self.sem_waiters(sem)[0];
            assert(self.queues[32 + sem].contains(waiter));
            self.law_state_tells_the_queue(32 + sem, waiter);
            assert forall|x: usize| x < TASK_SLOT_COUNT && x != waiter implies #[trigger] f(x)
                == g(x) by {
                assert(n.task(x) == self.task(x));
            }
            assert(n.task(waiter).granted_sem == sem + 1);
            assert(self.task(waiter).waiting_sem != 0);
            donation::lemma_count_change(f, g, waiter, TASK_SLOT_COUNT as nat);
        }
    }

    /// Acquiring takes exactly one permit when it succeeds at once, and none otherwise.
    pub proof fn law_acquire_takes_one_permit(
        self,
        sem: int,
        timeout_ms: u32,
        now: u64,
        delivery: bool,
    )
        requires
            self.coherent(),
            0 <= sem < 32,
        ensures
            self.sem_down(sem, timeout_ms, now, delivery).0.permits(sem) == (if self.sem_down(
                sem,
                timeout_ms,
                now,
                delivery,
            ).1 == Ok::<WaitStep, DriverError>(WaitStep::Acquired) {
                self.permits(sem) - 1
            } else {
                self.permits(sem)
            }),
    {
        let n = self.sem_down(sem, timeout_ms, now, delivery).0;
        let f = |slot: usize| self.task(slot).granted_sem == sem + 1;
        let g = |slot: usize| n.task(slot).granted_sem == sem + 1;
        assert forall|x: usize| x < TASK_SLOT_COUNT implies #[trigger] f(x) == g(x) by {
            assert(n.task(x).granted_sem == self.task(x).granted_sem);
        }
        donation::lemma_count_change(f, g, 0, TASK_SLOT_COUNT as nat);
    }

    /// Cancelling a wait mints no permit, and cancelling a grant that was not noticed
    /// returns it: either way the permits stay the same.
    pub proof fn law_cancellation_keeps_permits(self, slot: usize, sem: int, now: u64)
        requires
            self.coherent(),
            0 <= sem < 32,
            slot < TASK_SLOT_COUNT,
            self.task(slot).waiting_mutex == 0,
            self.task(slot).waiting_sem == sem + 1 || (self.task(slot).waiting_sem == 0
                && self.task(slot).granted_sem == sem + 1 && self.sem_releasable(sem)),
            self.waiters_hold_no_grant(),
        ensures
            self.wait_cancelled(slot, now).0.permits(sem) == self.permits(sem),
    {
        let t = self.task(slot);
        let n = self.wait_cancelled(slot, now).0;
        let f = |x: usize| self.task(x).granted_sem == sem + 1;
        if t.waiting_sem != 0 {
            let g = |x: usize| n.task(x).granted_sem == sem + 1;
            assert forall|x: usize| x < TASK_SLOT_COUNT implies #[trigger] f(x) == g(x) by {
                assert(n.task(x).granted_sem == self.task(x).granted_sem);
            }
            donation::lemma_count_change(f, g, 0, TASK_SLOT_COUNT as nat);
        } else {
            let t2 = Tcb { granted_sem: 0, sem_granted: false, ..t };
            let m = self.with_task(slot, t2);
            let g = |x: usize| m.task(x).granted_sem == sem + 1;
            self.lemma_ready_queued_is_ready(slot);
            assert(self.tasks[slot as int].base_priority < 32);
            self.lemma_tweak_coherent(slot, t2);
            assert forall|x: usize| x < TASK_SLOT_COUNT && x != slot implies #[trigger] f(x) == g(
                x,
            ) by {
                assert(m.task(x) == self.task(x));
            }
            assert(f(slot) && !g(slot));
            donation::lemma_count_change(f, g, slot, TASK_SLOT_COUNT as nat);
            assert forall|x: usize|
                x < TASK_SLOT_COUNT && (#[trigger] m.task(x)).waiting_sem != 0 implies m.task(
                x,
            ).granted_sem == 0 by {
                if x != slot {
                    assert(m.task(x) == self.task(x));
                }
            }
            m.law_release_adds_one_permit(sem, now);
        }
    }

    /// At most one wait or grant of `slot` is open.
    pub open spec fn waits_for_one(self, slot: usize) -> bool {
        let t = self.task(slot);
        &&& t.waiting_sem != 0 ==> t.waiting_mutex == 0 && t.granted_sem == 0 && t.granted_mutex == 0
        &&& t.waiting_mutex != 0 ==> t.granted_sem == 0 && t.granted_mutex == 0
        &&& t.granted_sem != 0 ==> t.granted_mutex == 0
    }

    /// `slot` waits for nothing and has been granted nothing that it did not notice.
    pub open spec fn waits_for_nothing(self, slot: usize) -> bool {
        let t = self.task(slot);
        t.waiting_sem == 0 && t.waiting_mutex == 0 && t.granted_sem == 0 && t.granted_mutex == 0
    }

    /// Cancelling finds something exactly if there is a wait or an unnoticed grant, and
    /// otherwise changes nothing. What it finds it ends for good: no wait, grant or queue
    /// of the task is left, a blocked task becomes ready, a cancelled wait changes no
    /// semaphore's count, and cancelling once more finds nothing.
    pub proof fn law_cancelled_wait_leaves_nothing(self, slot: usize, now: u64, later: u64)
        requires
            self.orderly(),
            slot < TASK_SLOT_COUNT,
            self.waits_for_one(slot),
        ensures
            ({
                let t = self.task(slot);
                let (n, outcome) = self.wait_cancelled(slot, now);
                &&& outcome == WaitCancellationOutcome::NotWaiting <==> self.waits_for_nothing(slot)
                &&& outcome == WaitCancellationOutcome::NotWaiting ==> n == self
                &&& outcome == WaitCancellationOutcome::Cancelled ==> {
                    &&& n.waits_for_nothing(slot)
                    &&& !n.task(slot).sem_granted
                    &&& forall|q: int| 32 <= q < 96 ==> !(#[trigger] n.queues[q]).contains(slot)
                    &&& t.waiting_sem != 0 || t.waiting_mutex != 0 ==> {
                        &&& t.state == State::Blocked
                        &&& n.task(slot).state == State::Ready
                        &&& n.sem_counts == self.sem_counts
                    }
                }
                &&& n.wait_cancelled(slot, later) == (n, WaitCancellationOutcome::NotWaiting)
            }),
    {
        let t = self.task(slot);
        let n = self.wait_cancelled(slot, now).0;
        self.law_cancellation_keeps_order(slot, now);
        self.lemma_ready_queued_is_ready(slot);
        assert(self.tasks[slot as int].base_priority < 32);
        assert(self.tasks[slot as int].granted_sem <= 32);
        assert(self.tasks[slot as int].granted_mutex <= 32);
        if t.waiting_sem != 0 {
        } else if t.waiting_mutex != 0 {
            self.lemma_mutex_donation_left(slot);
            let left = self.dequeued(64 + t.waiting_mutex - 1, slot);
            let d = self.mutex_donation_left(slot);
            assert(left.tasks[slot as int] == self.tasks[slot as int]);
            assert(d.tasks[slot as int] == (Tcb {
                priority: d.tasks[slot as int].priority,
                inherited_waiters: d.tasks[slot as int].inherited_waiters,
                ..left.tasks[slot as int]
            }));
        } else if t.granted_sem != 0 {
            let t2 = Tcb { granted_sem: 0, sem_granted: false, ..t };
            let m = self.with_task(slot, t2);
            self.lemma_tweak_coherent(slot, t2);
            let sem = t.granted_sem - 1;
            if m.sem_waiters(sem).len() > 0 {
                let waiter = m.sem_waiters(sem)[0];
                assert(m.queues[32 + sem].contains(waiter));
                m.law_state_tells_the_queue(32 + sem, waiter);
                assert(n.task(slot) == m.task(slot));
            }
        } else if t.granted_mutex != 0 {
            let t2 = Tcb { granted_mutex: 0, sem_granted: false, ..t };
            let mutex = t.granted_mutex - 1;
            let a = self.with_task(slot, t2);
            self.lemma_tweak_coherent(slot, t2);
            let m = a.with_mutex(mutex, slot, 0);
            assert(self.mutex_owner[mutex] == slot);
            assert(m.mutex_owner =~= a.mutex_owner);
            a.lemma_coherent_frame(m);
            m.lemma_release_spares(mutex, slot, now, slot);
        }
        assert forall|q: int| 32 <= q < 96 implies !(#[trigger] n.queues[q]).contains(slot) by {
            if n.queues[q].contains(slot) {
                n.law_state_tells_the_queue(q, slot);
                assert(self.waits_for_nothing(slot) || n.waits_for_nothing(slot));
            }
        }
    }

    /// While tasks wait for a semaphore no count of it is free.
    pub open spec fn no_free_permit_while_waiting(self, sem: int) -> bool {
        self.sem_waiters(sem).len() > 0 ==> self.sem_counts[sem] <= 0
    }

    /// Neither acquiring nor releasing leaves a count free while tasks wait.
    pub proof fn law_waiting_tasks_are_served_first(
        self,
        sem: int,
        timeout_ms: u32,
        now: u64,
        delivery: bool,
    )
        requires
            self.coherent(),
            0 <= sem < 32,
            self.no_free_permit_while_waiting(sem),
        ensures
            self.sem_down(sem, timeout_ms, now, delivery).0.no_free_permit_while_waiting(sem),
            self.sem_released(sem, now).no_free_permit_while_waiting(sem),
    {
    }

    // ---- Mutexes -------------------------------------------------------------------
    /// Only the owner releases a mutex; anyone else is refused and changes nothing.
    pub proof fn law_only_the_owner_unlocks(self, mutex: int, now: u64)
        requires
            self.mutex_owner[mutex] != self.current,
        ensures
            self.mutex_unlock(mutex, now) == (
                self,
                Err::<bool, DriverError>(DriverError::InvalidContext),
            ),
    {
    }

    /// A mutex that was free is free again after it has been taken and released, and
    /// nothing else has changed.
    pub proof fn law_lock_then_unlock_gives_back(
        self,
        mutex: int,
        timeout_ms: u32,
        now: u64,
        delivery: bool,
    )
        requires
            self.coherent(),
            0 <= mutex < 32,
            self.mutex_owner[mutex] == NIL,
            self.mutex_depth[mutex] == 0,
        ensures
            ({
                let (taken, first) = self.mutex_lock(mutex, timeout_ms, now, delivery);
                &&& first == Ok::<WaitStep, DriverError>(WaitStep::Acquired)
                &&& taken.mutex_unlock(mutex, now) == (self, Ok::<bool, DriverError>(true))
            }),
    {
        self.lemma_unowned(mutex);
        let taken = self.mutex_lock(mutex, timeout_ms, now, delivery).0;
        let free = taken.mutex_unlock(mutex, now).0;
        assert(free.mutex_owner =~= self.mutex_owner);
        assert(free.mutex_depth =~= self.mutex_depth);
        assert(free =~= self);
    }

    /// A recursive lock needs as many releases: taking an owned mutex again and releasing
    /// it once gives back the state before.
    pub proof fn law_recursive_lock_nests(
        self,
        mutex: int,
        timeout_ms: u32,
        now: u64,
        delivery: bool,
    )
        requires
            self.fits(),
            0 <= mutex < 32,
            self.mutex_owner[mutex] == self.current,
            0 < self.mutex_depth[mutex] < u32::MAX,
        ensures
            ({
                let (deeper, first) = self.mutex_lock(mutex, timeout_ms, now, delivery);
                &&& first == Ok::<WaitStep, DriverError>(WaitStep::Acquired)
                &&& deeper.mutex_unlock(mutex, now) == (self, Ok::<bool, DriverError>(false))
            }),
    {
        let deeper = self.mutex_lock(mutex, timeout_ms, now, delivery).0;
        let back = deeper.mutex_unlock(mutex, now).0;
        assert(back.mutex_owner =~= self.mutex_owner);
        assert(back.mutex_depth =~= self.mutex_depth);
        assert(back =~= self);
    }

    /// The last release hands the mutex to the waiter of best effective priority that has
    /// waited longest. It owns the mutex once and waits no longer.
    pub proof fn law_mutex_goes_to_the_best_waiter(self, mutex: int, i: int, now: u64)
        requires
            self.orderly(),
            0 <= mutex < 32,
            self.mutex_owner[mutex] == self.current,
            self.mutex_depth[mutex] == 1,
            0 <= i < self.mutex_waiters(mutex).len(),
        ensures
            ({
                let next = self.mutex_waiters(mutex)[0];
                let n = self.mutex_unlock(mutex, now).0;
                &&& self.task(next).priority <= self.task(self.mutex_waiters(mutex)[i]).priority
                &&& n.mutex_owner[mutex] == next
                &&& n.mutex_depth[mutex] == 1
                &&& next < TASK_SLOT_COUNT
                &&& n.task(next).state == State::Ready
                &&& n.task(next).sem_granted
                &&& n.task(next).granted_mutex == mutex + 1
                &&& n.task(next).waiting_mutex == 0
                &&& n.task(next).wake_at == 0
            }),
    {
        let next = self.mutex_waiters(mutex)[0];
        assert(self.queues[64 + mutex].contains(next));
        self.law_state_tells_the_queue(64 + mutex, next);
        assert(self.by_priority(64 + mutex));
        let m = self.with_mutex(mutex, self.current, 0);
        assert(m.mutex_owner =~= self.mutex_owner);
        self.lemma_coherent_frame(m);
        m.lemma_handed_to(mutex, self.current, now);
    }

    /// A wait that would close a circle of owners is refused and changes nothing.
    pub proof fn law_mutex_cycle_is_refused(
        self,
        mutex: int,
        timeout_ms: u32,
        now: u64,
        delivery: bool,
    )
        requires
            0 <= mutex < 32,
            self.mutex_owner[mutex] != NIL,
            self.mutex_owner[mutex] != self.current,
            timeout_ms != 0,
            self.chain_contains(
                self.mutex_owner[mutex],
                self.current,
                TASK_SLOT_COUNT as nat,
            ),
        ensures
            self.mutex_lock(mutex, timeout_ms, now, delivery) == (
                self,
                Err::<WaitStep, DriverError>(DriverError::InvalidContext),
            ),
    {
    }

    /// The effective priority of a task is the best of its own and of those that wait for
    /// a mutex of it: no waiter has a better one, and it is its own or that of a waiter.
    pub proof fn law_effective_priority_is_the_best(self, owner: usize)
        requires
            self.orderly(),
            owner < TASK_SLOT_COUNT,
        ensures
            self.task(owner).priority <= self.task(owner).base_priority,
            forall|waiter: usize|
                waiter < TASK_SLOT_COUNT && #[trigger] self.waits_for(waiter, owner) ==> self.task(
                    owner,
                ).priority <= self.task(waiter).priority,
            self.task(owner).priority == self.task(owner).base_priority || exists|waiter: usize|
                waiter < TASK_SLOT_COUNT && #[trigger] self.waits_for(waiter, owner) && self.task(
                    waiter,
                ).priority == self.task(owner).priority,
    {
        let t = self.task(owner);
        assert(self.settled(owner));
        assert(self.tasks[owner as int].base_priority < 32);
        assert forall|waiter: usize|
            waiter < TASK_SLOT_COUNT && #[trigger] self.waits_for(waiter, owner) implies self.task(
            owner,
        ).priority <= self.task(waiter).priority by {
            let level = self.task(waiter).priority;
            assert(self.tasks[waiter as int].priority < 32);
            assert(self.donates(waiter, owner, level));
            assert(self.donations(owner, level) == self.donors(owner, level));
            let f = |slot: usize| self.donates(slot, owner, level);
            donation::lemma_count_bounds(f, TASK_SLOT_COUNT as nat);
            assert(f(waiter));
            t.lemma_best_at_most(0, level as int);
        }
        if t.priority != t.base_priority {
            let level = t.best_donation(0)->0;
            t.lemma_best_counts(0);
            assert(self.donations(owner, level) == self.donors(owner, level));
            let f = |slot: usize| self.donates(slot, owner, level);
            donation::lemma_count_bounds(f, TASK_SLOT_COUNT as nat);
            let waiter = choose|x: usize| x < TASK_SLOT_COUNT && #[trigger] f(x);
            assert(f(waiter));
            assert(self.waits_for(waiter, owner));
        }
    }

    /// `waiter` waits for a mutex that `owner` owns.
    pub open spec fn waits_for(self, waiter: usize, owner: usize) -> bool {
        let mutex = self.task(waiter).waiting_mutex;
        mutex != 0 && self.mutex_owner[mutex - 1] == owner
    }

    // ---- Identities --------------------------------------------------------------------
    /// Reusing a slot gives it another generation, so that an identity of the former
    /// task names nobody.
    pub proof fn law_slot_reuse_outdates_identities(
        self,
        slot: usize,
        request: SpawnRequest,
        stack: usize,
        size: usize,
        now: u64,
        trap: bool,
        stale: TaskId,
    )
        requires
            self.fits(),
            slot < TASK_SLOT_COUNT,
            identity::task_of(stale) == Some((slot, self.slot_generations[slot as int])),
        ensures
            ({
                let n = self.spawned(slot, request, stack, size, now, trap);
                &&& n.task(slot).identity_generation == n.slot_generations[slot as int]
                &&& n.task(slot).identity_generation != 0
                &&& n.task(slot).identity_generation != (identity::task_of(stale)->0).1
            }),
    {
    }

    // ---- Slots ---------------------------------------------------------------------------
    /// Live tasks and promised slots together fit into `capacity`.
    pub open spec fn within(self, capacity: usize) -> bool {
        self.dynamic_used() + self.reservations.total_remaining <= capacity
    }

    /// While dynamic slots are left, neither live nor promised, one is found; the main
    /// and idle slots are never given away.
    pub proof fn law_allocation_succeeds_while_slots_are_left(self, capacity: usize)
        requires
            self.policy is None,
            capacity <= 15,
        ensures
            self.dynamic_used() + self.reservations.total_remaining < capacity <==> (
            self.allocation(capacity) is Ok),
            self.allocation(capacity) matches Ok(slot) ==> 2 <= slot < TASK_SLOT_COUNT && self.task(
                slot,
            ).state == State::Free,
    {
        self.lemma_some_slot_free(17);
        self.lemma_free_found(2);
    }

    /// A promised slot is always found: nobody else can have taken it.
    pub proof fn law_reservation_is_honoured(
        self,
        token: TaskReservation,
        capacity: usize,
    )
        requires
            self.policy is None,
            capacity <= 15,
            self.within(capacity),
            self.reservations.wf(),
            self.reservations.resolved(token) matches Some(entry)
                && self.reservations.entries@[entry].remaining > 0,
        ensures
            self.reserved_allocation(token) is Ok,
    {
        let entry = self.reservations.resolved(token)->0;
        assert(self.reservations.entries@[entry].remaining <= self.reservations.total_remaining);
        self.lemma_some_slot_free(17);
        self.lemma_free_found(2);
    }

    /// A task started from a reservation uses up exactly one promised slot of it; a token
    /// that is stale, or has no slot left, gets nothing and changes nothing.
    pub proof fn law_reserved_task_uses_one_promise(self, token: TaskReservation)
        requires
            self.reservations.wf(),
        ensures
            match self.reservations.resolved(token) {
                Some(entry) => {
                    let left = self.reservations.entries@[entry].remaining;
                    let n = self.reservation_used(token).reservations;
                    &&& left == 0 ==> self.reserved_allocation(token) == Err::<
                        (usize, Option<ReservedStack>),
                        _,
                    >(DriverError::NoTaskSlots)
                    &&& self.reserved_allocation(token) is Ok ==> {
                        &&& n.entries@[entry].remaining == left - 1
                        &&& n.total_remaining == self.reservations.total_remaining - 1
                        &&& forall|i: int|
                            0 <= i < 4 && i != entry ==> #[trigger] n.entries@[i]
                                == self.reservations.entries@[i]
                    }
                },
                None => self.reserved_allocation(token) == Err::<
                    (usize, Option<ReservedStack>),
                    _,
                >(DriverError::InvalidHandle),
            },
            self.reserved_allocation(token) is Err ==> self.reservation_used(token) == self,
    {
        if let Some(entry) = self.reservations.resolved(token) {
            assert(self.reservations.entries@[entry].wf());
            assert(self.reservations.entries@[entry].remaining
                <= self.reservations.total_remaining);
        }
    }

    /// Reserving slots keeps the promises within the capacity.
    pub proof fn law_promises_stay_within_capacity(self, required: u8, capacity: usize)
        requires
            self.within(capacity),
            self.reservations.vacancy() is Some,
            required <= self.dynamic_available(capacity),
        ensures
            self.with_reservations(self.reservations.reserved(required)).within(capacity),
    {
        let n = self.with_reservations(self.reservations.reserved(required));
        let f = |slot: usize|
            slot >= self.first_dynamic() && self.task(slot).state != State::Free;
        let g = |slot: usize| slot >= n.first_dynamic() && n.task(slot).state != State::Free;
        assert forall|x: usize| x < 17 implies #[trigger] f(x) == g(x) by {}
        donation::lemma_count_change(f, g, 0, 17);
        donation::lemma_count_bounds(f, 17);
    }

    /// Starting a task keeps live tasks and promises within the capacity, whether it uses
    /// a slot that was left or one that was promised.
    pub proof fn law_spawning_stays_within_capacity(
        self,
        token: TaskReservation,
        capacity: usize,
        request: SpawnRequest,
        stack: usize,
        size: usize,
        now: u64,
        trap: bool,
    )
        requires
            self.coherent(),
            self.policy is None,
            capacity <= 15,
            self.within(capacity),
            self.reservations.wf(),
        ensures
            self.allocation(capacity) matches Ok(slot) ==> self.spawned(
                slot,
                request,
                stack,
                size,
                now,
                trap,
            ).within(capacity),
            self.reserved_allocation(token) matches Ok((slot, _)) ==> self.reservation_used(
                token,
            ).spawned(slot, request, stack, size, now, trap).within(capacity),
    {
        self.lemma_free_found(2);
        if let Ok(slot) = self.allocation(capacity) {
            self.lemma_spawn_counts(slot, request, stack, size, now, trap);
        }
        if let Ok((slot, _)) = self.reserved_allocation(token) {
            let entry = self.reservations.resolved(token)->0;
            let m = self.reservation_used(token);
            assert(self.reservations.entries@[entry].remaining
                <= self.reservations.total_remaining);
            let f = |x: usize| x >= self.first_dynamic() && self.task(x).state != State::Free;
            let g = |x: usize| x >= m.first_dynamic() && m.task(x).state != State::Free;
            assert forall|x: usize| x < 17 implies #[trigger] f(x) == g(x) by {}
            donation::lemma_count_change(f, g, 0, 17);
            m.lemma_spawn_counts(slot, request, stack, size, now, trap);
        }
    }

    /// A task started in a free slot is one live task more.
    proof fn lemma_spawn_counts(
        self,
        slot: usize,
        request: SpawnRequest,
        stack: usize,
        size: usize,
        now: u64,
        trap: bool,
    )
        requires
            self.tasks.len() == TASK_SLOT_COUNT,
            self.first_dynamic() <= slot < TASK_SLOT_COUNT,
            self.task(slot).state == State::Free,
        ensures
            self.spawned(slot, request, stack, size, now, trap).dynamic_used()
                == self.dynamic_used() + 1,
            self.spawned(slot, request, stack, size, now, trap).reservations == self.reservations,
    {
        let n = self.spawned(slot, request, stack, size, now, trap);
        let f = |x: usize| x >= self.first_dynamic() && self.task(x).state != State::Free;
        let g = |x: usize| x >= n.first_dynamic() && n.task(x).state != State::Free;
        assert forall|x: usize| x < 17 && x != slot implies #[trigger] f(x) == g(x) by {}
        assert(!f(slot) && g(slot));
        donation::lemma_count_change(f, g, slot, 17);
    }

    proof fn lemma_free_found(self, slot: usize)
        ensures
            match self.free_from(slot) {
                Some(found) => slot <= found < 17 && self.task(found).state == State::Free,
                None => forall|x: usize|
                    slot <= x < 17 ==> (#[trigger] self.task(x)).state != State::Free,
            },
        decreases 17 - slot,
    {
        if slot < 17 && self.task(slot).state != State::Free {
            self.lemma_free_found((slot + 1) as usize);
            if self.free_from(slot) is None {
                assert forall|x: usize| slot <= x < 17 implies (#[trigger] self.task(x)).state
                    != State::Free by {
                    if x != slot {
                        assert((slot + 1) as usize <= x);
                    }
                }
            }
        }
    }

    /// With fewer live tasks than slots one slot is free.
    proof fn lemma_some_slot_free(self, n: nat)
        requires
            self.policy is None,
            n <= 17,
        ensures
            (forall|x: usize| 2 <= x < n ==> (#[trigger] self.task(x)).state != State::Free)
                ==> donation::count(
                |slot: usize| slot >= self.first_dynamic() && self.task(slot).state != State::Free,
                n,
            ) == (if n >= 2 {
                n - 2
            } else {
                0
            }),
        decreases n,
    {
        if n > 0 {
            self.lemma_some_slot_free((n - 1) as nat);
            if forall|x: usize| 2 <= x < n ==> (#[trigger] self.task(x)).state != State::Free {
                assert forall|x: usize| 2 <= x < n - 1 implies (#[trigger] self.task(x)).state
                    != State::Free by {}
                let top = (n - 1) as usize;
                if n > 2 {
                    assert(self.task(top).state != State::Free);
                }
            }
        }
    }
}

} // verus!
