//! What every operation keeps.
//!
//! A scheduler is orderly when its queues, waits and donations agree, every effective
//! priority is settled, every wait queue stands by priority, the idle thread is not
//! queued, and at most the current task runs.
use vstd::prelude::*;
use crate::config::{Diagnostics, IDLE_SLOT, NIL, TASK_SLOT_COUNT};
use crate::links;
use crate::lifecycle::{BootContext, SpawnRequest};
use crate::metrics;
use crate::model::{SchedModel, SwitchIntent};
use crate::reservation;
use crate::scheduling::{BudgetState, RunPolicy};
use crate::semaphore;
use crate::semaphore::WaitStep;
use crate::task::{State, Tcb};

verus! {

impl SchedModel {
    pub open spec fn orderly(self) -> bool {
        &&& self.coherent()
        &&& self.tidy()
        &&& self.lone_runner()
    }

    /// No task but those that ran before, or the current one, runs now.
    proof fn lemma_runner_frame(self, other: SchedModel)
        requires
            self.lone_runner(),
            other.current == self.current,
            forall|slot: usize|
                slot < TASK_SLOT_COUNT && (#[trigger] other.task(slot)).state == State::Running
                    ==> self.task(slot).state == State::Running || slot == self.current,
        ensures
            other.lone_runner(),
    {
        assert forall|slot: usize|
            slot < TASK_SLOT_COUNT && (#[trigger] other.task(slot)).state
                == State::Running implies slot == other.current by {
            assert(self.task(slot).state == State::Running || slot == self.current);
        }
    }

    /// A new block that keeps what order depends on.
    proof fn lemma_tweak_orderly(self, slot: usize, task: Tcb)
        requires
            self.orderly(),
            slot < TASK_SLOT_COUNT,
            self.tweak(slot, task),
            task.base_priority == self.task(slot).base_priority,
            task.state == State::Running ==> slot == self.current,
        ensures
            self.with_task(slot, task).orderly(),
    {
        let n = self.with_task(slot, task);
        self.lemma_tweak_coherent(slot, task);
        self.lemma_tidy_frame(n);
        self.lemma_runner_frame(n);
    }

    /// Counters and marks do not disturb order.
    proof fn lemma_frame_orderly(self, other: SchedModel)
        requires
            self.orderly(),
            other.tasks == self.tasks,
            other.queues == self.queues,
            other.mutex_owner == self.mutex_owner,
            other.policy == self.policy,
            other.current == self.current,
            other.sem_counts.len() == 32,
            other.mutex_depth.len() == 32,
            other.slot_generations.len() == TASK_SLOT_COUNT,
        ensures
            other.orderly(),
    {
        self.lemma_coherent_frame(other);
        self.lemma_tidy_frame(other);
        self.lemma_runner_frame(other);
    }

    proof fn lemma_running_tweak(self)
        requires
            self.coherent(),
            self.task(self.current).state == State::Running,
        ensures
            self.loose(self.current),
            !self.ready_queued(self.current),
            self.task(self.current).waiting_sem == 0,
            self.task(self.current).waiting_mutex == 0,
            self.tasks[self.current as int].priority < 32,
            self.tasks[self.current as int].base_priority < 32,
            self.tasks[self.current as int].granted_sem <= 32,
    {
        self.lemma_unqueued_when_idle_state(self.current);
        assert(self.tasks[self.current as int].priority < 32);
        assert(!self.queues[self.ready_key(self.current)].contains(self.current));
    }

    // ---- Start -----------------------------------------------------------------
    /// A fresh scheduler is orderly, and so it is once it has started.
    pub proof fn law_start_is_orderly(self, boot: BootContext, trap: bool)
        requires
            self == SchedModel::initial(self.policy, self.time_slice),
        ensures
            self.orderly(),
            self.booted(boot, trap).orderly(),
    {
        SchedModel::law_initial_is_coherent(self.policy, self.time_slice);
        assert forall|slot: usize| slot < TASK_SLOT_COUNT implies (#[trigger] self.task(slot)).state
            != State::Running by {}
        self.lemma_booted(boot, trap);
    }

    // ---- Deadlines -------------------------------------------------------------
    /// Serving deadlines keeps order.
    pub proof fn law_waking_keeps_order(self, now: u64)
        requires
            self.orderly(),
        ensures
            self.all_woken(now).orderly(),
    {
        self.lemma_all_woken(now);
        self.lemma_all_woken_stirred(now);
        self.lemma_stirred_runner(self.all_woken(now));
    }

    /// A timer interrupt keeps order.
    pub proof fn law_timer_keeps_order(self, now: u64, limit: u32)
        requires
            self.orderly(),
        ensures
            self.timer_interrupted(now, limit).0.orderly(),
    {
        let d = self.with_diagnostics(
            Diagnostics {
                timer_interrupts: metrics::bumped(self.diagnostics.timer_interrupts),
                ..self.diagnostics
            },
        );
        self.lemma_frame_orderly(d);
        d.lemma_timer_fired(now, limit);
        d.law_waking_keeps_order(now);
        let woken = d.all_woken(now);
        let m = d.timer_fired(now, limit).0;
        assert(m.lone_runner()) by {
            assert forall|slot: usize|
                slot < TASK_SLOT_COUNT && (#[trigger] m.task(slot)).state
                    == State::Running implies slot == m.current by {
                if slot != woken.current {
                    assert(m.task(slot) == woken.task(slot));
                }
            }
        }
        m.lemma_frame_orderly(self.timer_interrupted(now, limit).0);
    }

    // ---- Semaphores --------------------------------------------------------------
    /// Acquiring a semaphore keeps order, whatever comes of it.
    pub proof fn law_semaphore_down_keeps_order(
        self,
        sem: int,
        timeout_ms: u32,
        now: u64,
        delivery: bool,
    )
        requires
            self.orderly(),
            0 <= sem < 32,
            self.task(self.current).state == State::Running,
        ensures
            self.sem_down(sem, timeout_ms, now, delivery).0.orderly(),
    {
        let (n, r) = self.sem_down(sem, timeout_ms, now, delivery);
        self.lemma_running_tweak();
        if r matches Ok(WaitStep::Blocked(_)) {
            self.lemma_sem_blocked(sem, semaphore::wait_deadline(timeout_ms, now));
            assert forall|slot: usize| slot < TASK_SLOT_COUNT && slot != self.current implies (
            #[trigger] n.task(slot)) == self.task(slot) by {}
            self.lemma_runner_frame(n);
        } else {
            self.lemma_frame_orderly(n);
        }
    }

    /// Releasing a semaphore keeps order.
    pub proof fn law_semaphore_up_keeps_order(self, sem: int, now: u64)
        requires
            self.orderly(),
            0 <= sem < 32,
        ensures
            self.sem_released(sem, now).orderly(),
    {
        let n = self.sem_released(sem, now);
        if self.sem_waiters(sem).len() == 0 {
            self.lemma_frame_orderly(n);
        } else {
            self.lemma_sem_granted(sem, now);
            self.lemma_sem_released_stirred(sem, now);
            self.lemma_stirred_runner(n);
        }
    }

    // ---- Mutexes -------------------------------------------------------------------
    /// Acquiring a mutex keeps order, whatever comes of it. In particular no chain of
    /// owners ever runs in a circle.
    pub proof fn law_mutex_lock_keeps_order(
        self,
        mutex: int,
        timeout_ms: u32,
        now: u64,
        delivery: bool,
    )
        requires
            self.orderly(),
            0 <= mutex < 32,
            self.task(self.current).state == State::Running,
        ensures
            self.mutex_lock(mutex, timeout_ms, now, delivery).0.orderly(),
    {
        let (n, r) = self.mutex_lock(mutex, timeout_ms, now, delivery);
        let owner = self.mutex_owner[mutex];
        self.lemma_running_tweak();
        if r matches Ok(WaitStep::Blocked(_)) {
            let wake_at = semaphore::wait_deadline(timeout_ms, now);
            self.lemma_mutex_blocked(mutex, wake_at);
            let parked = self.mutex_parked(mutex, wake_at);
            parked.lemma_inheritance_added_posed(owner, self.task(self.current).priority);
            assert forall|slot: usize|
                slot < TASK_SLOT_COUNT && (#[trigger] n.task(slot)).state
                    == State::Running implies self.task(slot).state == State::Running || slot
                == self.current by {
                assert(parked.task(slot).state == n.task(slot).state);
                if slot != self.current {
                    assert(parked.task(slot) == self.task(slot));
                }
            }
            self.lemma_runner_frame(n);
        } else if r is Ok && owner == self.current {
            assert(n.mutex_owner =~= self.mutex_owner);
            self.lemma_frame_orderly(n);
        } else if r is Ok && owner == NIL {
            self.lemma_unowned(mutex);
            self.lemma_owner_changed(mutex, self.current, 1);
            self.lemma_runner_frame(n);
        }
    }

    /// Releasing a mutex keeps order.
    pub proof fn law_mutex_unlock_keeps_order(self, mutex: int, now: u64)
        requires
            self.orderly(),
            0 <= mutex < 32,
            self.task(self.current).state == State::Running,
            self.task(self.current).granted_mutex == 0,
        ensures
            self.mutex_unlock(mutex, now).0.orderly(),
    {
        let depth = self.mutex_depth[mutex];
        if self.mutex_owner[mutex] == self.current && depth != 0 {
            let m = self.with_mutex(mutex, self.current, (depth - 1) as u32);
            assert(m.mutex_owner =~= self.mutex_owner);
            self.lemma_frame_orderly(m);
            if depth == 1 {
                self.lemma_running_tweak();
                m.lemma_mutex_released(mutex, self.current, now);
                m.lemma_mutex_released_stirred(mutex, self.current, now);
                m.lemma_stirred_runner(m.mutex_released(mutex, self.current, now));
            }
        }
    }

    /// Cancelling a wait or an unnoticed grant keeps order.
    pub proof fn law_cancellation_keeps_order(self, slot: usize, now: u64)
        requires
            self.orderly(),
            slot < TASK_SLOT_COUNT,
        ensures
            self.wait_cancelled(slot, now).0.orderly(),
    {
        let n = self.wait_cancelled(slot, now).0;
        let t = self.task(slot);
        self.lemma_wait_cancelled_stirred(slot, now);
        self.lemma_stirred_runner(n);
        assert(self.tasks[slot as int].granted_sem <= 32);
        assert(self.tasks[slot as int].granted_mutex <= 32);
        assert(self.tasks[slot as int].base_priority < 32);
        assert(self.tasks[slot as int].priority < 32);
        if t.waiting_sem == 0 && t.waiting_mutex == 0 && self.ready_queued(slot) {
            assert(self.queues[self.ready_key(slot)].contains(slot));
        }
        if t.waiting_sem != 0 {
            self.lemma_sem_wait_left(slot);
            let m = self.sem_wait_left(slot);
            assert(m.task(slot).waiting_mutex == 0) by {
                assert(self.tasks[slot as int].waiting_sem == 0
                    || self.tasks[slot as int].waiting_mutex == 0);
            }
            m.lemma_made_ready_coherent(slot, now);
            m.lemma_made_ready_tidy(slot, now);
        } else if t.waiting_mutex != 0 {
            self.lemma_mutex_wait_left(slot);
            let m = self.mutex_wait_left(slot);
            m.lemma_made_ready_coherent(slot, now);
            m.lemma_made_ready_tidy(slot, now);
        } else if t.granted_sem != 0 {
            let t2 = Tcb { granted_sem: 0, sem_granted: false, ..t };
            self.lemma_tweak_orderly(slot, t2);
            self.with_task(slot, t2).law_semaphore_up_keeps_order(t.granted_sem - 1, now);
        } else if t.granted_mutex != 0 {
            let t2 = Tcb { granted_mutex: 0, sem_granted: false, ..t };
            let mutex = t.granted_mutex - 1;
            self.lemma_tweak_orderly(slot, t2);
            let a = self.with_task(slot, t2);
            let m = a.with_mutex(mutex, slot, 0);
            assert(self.mutex_owner[mutex] == slot);
            assert(m.mutex_owner =~= a.mutex_owner);
            a.lemma_frame_orderly(m);
            m.lemma_mutex_released(mutex, slot, now);
        }
    }

    // ---- Giving way ------------------------------------------------------------------
    /// Yielding keeps order.
    pub proof fn law_yield_keeps_order(self, now: u64)
        requires
            self.orderly(),
            self.task(self.current).state == State::Running,
        ensures
            self.yield_step(now).0.orderly(),
    {
        let d = self.with_diagnostics(
            Diagnostics { yields: metrics::bumped(self.diagnostics.yields), ..self.diagnostics },
        );
        self.lemma_frame_orderly(d);
        d.law_waking_keeps_order(now);
        d.lemma_all_woken_stirred(now);
        d.lemma_stirred_runner(d.all_woken(now));
        let woken = d.all_woken(now);
        woken.lemma_yielded(self.current, now);
        woken.lemma_handed_over(self.current, now);
    }

    /// A current task that becomes ready leaves nobody running.
    proof fn lemma_handed_over(self, slot: usize, now: u64)
        requires
            self.lone_runner(),
            self.fits(),
            slot == self.current,
        ensures
            self.popped().made_ready(slot, now).lone_runner(),
            self.popped().lone_runner(),
    {
        let p = self.popped();
        let n = p.made_ready(slot, now);
        assert forall|x: usize| x < TASK_SLOT_COUNT && x != slot implies (#[trigger] n.task(x))
            == self.task(x) by {}
        assert forall|x: usize| x < TASK_SLOT_COUNT implies (#[trigger] p.task(x)) == self.task(
            x,
        ) by {}
        self.lemma_runner_frame(p);
        self.lemma_runner_frame(n);
    }

    /// Preemption keeps order.
    pub proof fn law_preemption_keeps_order(self, allow_equal: bool, now: u64)
        requires
            self.orderly(),
        ensures
            self.rescheduled(allow_equal, now).0.orderly(),
    {
        self.lemma_rescheduled(allow_equal, now);
        self.lemma_handed_over(self.current, now);
    }

    /// Sleeping keeps order.
    pub proof fn law_sleep_keeps_order(self, wake_at: u64)
        requires
            self.orderly(),
            self.task(self.current).state == State::Running,
        ensures
            self.slept(wake_at).orderly(),
    {
        let d = self.with_diagnostics(
            Diagnostics { sleeps: metrics::bumped(self.diagnostics.sleeps), ..self.diagnostics },
        );
        self.lemma_frame_orderly(d);
        d.lemma_running_tweak();
        d.lemma_tweak_orderly(
            d.current,
            Tcb { state: State::Sleeping, wake_at, ..d.task(d.current) },
        );
    }

    // ---- Scheduler lock ----------------------------------------------------------------
    /// Taking the scheduler lock keeps order.
    pub proof fn law_lock_keeps_order(self, now: u64)
        requires
            self.orderly(),
            self.task(self.current).state == State::Running,
        ensures
            self.locked(now).orderly(),
    {
        self.lemma_running_tweak();
        let n = self.locked(now);
        let m = self.with_task(self.current, n.task(self.current));
        self.lemma_tweak_orderly(self.current, n.task(self.current));
        m.lemma_frame_orderly(n);
    }

    /// Releasing the scheduler lock, with what follows, keeps order.
    pub proof fn law_unlock_keeps_order(self, now: u64)
        requires
            self.orderly(),
            self.task(self.current).state == State::Running,
            self.task(self.current).scheduler_lock_depth != 0,
        ensures
            self.unlocked(now).orderly(),
            self.unlocked(now).after_unlock(now).0.orderly(),
    {
        self.lemma_running_tweak();
        let u = self.unlocked(now);
        self.lemma_tweak_orderly(self.current, u.task(self.current));
        if u.overrun_due() {
            let o = u.overrun_throttled(now);
            u.lemma_overrun_throttled(now);
            assert forall|x: usize| x < TASK_SLOT_COUNT && x != u.current implies (
            #[trigger] o.task(x)) == u.task(x) by {}
            u.lemma_runner_frame(o);
            o.lemma_popped_coherent();
            o.lemma_popped_tidy();
            o.lemma_handed_over(o.current, now);
        } else {
            u.law_preemption_keeps_order(u.time_slice_pending, now);
            u.rescheduled(u.time_slice_pending, now).0.lemma_frame_orderly(
                u.after_unlock(now).0,
            );
        }
    }

    // ---- Tasks -------------------------------------------------------------------------
    /// Changing a base priority keeps order: effective priorities are settled again, all
    /// along the chain of mutex owners.
    pub proof fn law_priority_change_keeps_order(self, slot: usize, priority: u8)
        requires
            self.orderly(),
            slot < TASK_SLOT_COUNT,
            priority < 32,
        ensures
            self.base_priority_set(slot, priority).orderly(),
    {
        self.lemma_base_priority_set(slot, priority);
        self.lemma_stirred_runner(self.base_priority_set(slot, priority));
    }

    /// Changing a run policy keeps order.
    pub proof fn law_policy_change_keeps_order(self, slot: usize, policy: RunPolicy, now: u64)
        requires
            self.orderly(),
            slot < TASK_SLOT_COUNT,
        ensures
            self.with_run_policy(slot, policy, now).orderly(),
    {
        let t = self.task(slot);
        let n = self.with_run_policy(slot, policy, now);
        let fresh = BudgetState::fresh(policy, now);
        let t2 = Tcb {
            run_policy: policy,
            budget: if t.state == State::Running {
                fresh.dispatched(now)
            } else {
                fresh
            },
            ..t
        };
        assert(self.tasks[slot as int].priority < 32);
        assert(self.tasks[slot as int].base_priority < 32);
        assert(self.tasks[slot as int].granted_sem <= 32);
        self.lemma_ready_queued_is_ready(slot);
        if t.state == State::Ready && self.ready_queued(slot) {
            let r = self.ready_removed(slot);
            self.lemma_unqueued_coherent(self.ready_key(slot), slot);
            self.lemma_tidy_frame(r);
            self.lemma_queue_without(self.ready_key(slot), slot);
            self.lemma_runner_frame(r);
            r.lemma_tweak_orderly(slot, t2);
            let m = r.with_task(slot, t2);
            assert(!self.is_idle(slot));
            m.lemma_pushed_coherent(slot);
            m.lemma_tidy_frame(n);
            m.lemma_queue_with(m.ready_key(slot), slot);
            m.lemma_runner_frame(n);
        } else {
            self.lemma_tweak_orderly(slot, t2);
            if t.state == State::Throttled {
                let m = self.with_task(slot, t2);
                self.lemma_unqueued_when_idle_state(slot);
                m.lemma_unqueued_when_idle_state(slot);
                m.lemma_made_ready_coherent(slot, now);
                m.lemma_made_ready_tidy(slot, now);
                assert forall|x: usize| x < TASK_SLOT_COUNT && x != slot implies (
                #[trigger] n.task(x)) == m.task(x) by {}
                m.lemma_runner_frame(n);
            }
        }
    }

    proof fn lemma_queue_without(self, key: int, slot: usize)
        requires
            0 <= key < 32,
            self.queues.len() == 96,
            self.queues[key].no_duplicates(),
            self.idle_unqueued(),
        ensures
            self.with_queue(key, links::without(self.queues[key], slot)).idle_unqueued(),
    {
        links::lemma_without(self.queues[key], slot);
        let n = self.with_queue(key, links::without(self.queues[key], slot));
        if n.policy is None {
            assert forall|q: int| 0 <= q < 32 implies !(#[trigger] n.queues[q]).contains(
                IDLE_SLOT,
            ) by {
                assert(!self.queues[q].contains(IDLE_SLOT));
            }
        }
    }

    proof fn lemma_queue_with(self, key: int, slot: usize)
        requires
            0 <= key < 32,
            self.queues.len() == 96,
            self.queues[key].no_duplicates(),
            !self.queues[key].contains(slot),
            self.idle_unqueued(),
            !self.is_idle(slot),
        ensures
            self.with_queue(key, self.queues[key].push(slot)).idle_unqueued(),
    {
        links::lemma_appended(self.queues[key], slot);
        let n = self.with_queue(key, self.queues[key].push(slot));
        if n.policy is None {
            assert forall|q: int| 0 <= q < 32 implies !(#[trigger] n.queues[q]).contains(
                IDLE_SLOT,
            ) by {
                assert(!self.queues[q].contains(IDLE_SLOT));
            }
        }
    }

    /// Creating a task keeps order, unless tasks still wait for a mutex that the former
    /// owner of the slot took to its grave.
    pub proof fn law_spawn_keeps_order(
        self,
        slot: usize,
        request: SpawnRequest,
        stack: usize,
        size: usize,
        now: u64,
        trap: bool,
    )
        requires
            self.orderly(),
            slot < TASK_SLOT_COUNT,
            self.task(slot).state == State::Free,
            request.priority < 32,
            self.owes_nobody(slot),
        ensures
            self.spawned(slot, request, stack, size, now, trap).orderly(),
    {
        self.lemma_spawned(slot, request, stack, size, now, trap);
        let t = self.new_task(slot, request, stack, size, now, trap);
        let m = SchedModel {
            slot_generations: self.slot_generations.update(
                slot as int,
                reservation::next_generation(self.slot_generations[slot as int]),
            ),
            ..self.with_task(slot, t)
        };
        let n = self.spawned(slot, request, stack, size, now, trap);
        self.lemma_unqueued_when_idle_state(slot);
        assert(m.tidy()) by {
            assert forall|x: usize| x < TASK_SLOT_COUNT implies #[trigger] m.settled(x) by {
                assert(self.settled(x));
                if x == slot {
                    assert forall|level: int| 0 <= level < 32 implies #[trigger] self.task(
                        slot,
                    ).inherited_waiters@[level] == 0 by {
                        self.lemma_owes_nobody(slot, level as u8);
                    }
                    m.task(slot).lemma_no_donation(0);
                } else {
                    assert(m.task(x) == self.task(x));
                }
            }
            assert forall|q: int| 32 <= q < 96 implies #[trigger] m.by_priority(q) by {
                assert(self.by_priority(q));
                let s = self.queues[q];
                assert forall|i: int, j: int|
                    #![trigger s[i], s[j]]
                    0 <= i < j < s.len() implies m.tasks[s[i] as int].priority
                    <= m.tasks[s[j] as int].priority by {
                    assert(s.contains(s[i]) && s.contains(s[j]));
                    self.lemma_member_is_task(q, s[i]);
                    self.lemma_member_is_task(q, s[j]);
                    assert(!self.queues[q].contains(slot));
                }
            }
        }
        m.lemma_made_ready_tidy(slot, now);
        assert forall|x: usize| x < TASK_SLOT_COUNT && x != slot implies (#[trigger] n.task(x))
            == self.task(x) by {}
        self.lemma_runner_frame(n);
    }

    /// Ending a task keeps order.
    pub proof fn law_exit_keeps_order(self)
        requires
            self.orderly(),
            self.task(self.current).state == State::Running,
            self.owes_nobody(self.current),
        ensures
            self.exited().orderly(),
    {
        self.lemma_exited();
        self.lemma_running_tweak();
        let cur = self.current;
        let m = self.with_task(cur, Tcb::blank());
        let n = self.exited();
        assert(m.tidy()) by {
            assert forall|x: usize| x < TASK_SLOT_COUNT implies #[trigger] m.settled(x) by {
                assert(self.settled(x));
                if x == cur {
                    Tcb::blank().lemma_no_donation(0);
                } else {
                    assert(m.task(x) == self.task(x));
                }
            }
            assert forall|q: int| 32 <= q < 96 implies #[trigger] m.by_priority(q) by {
                assert(self.by_priority(q));
                let s = self.queues[q];
                assert forall|i: int, j: int|
                    #![trigger s[i], s[j]]
                    0 <= i < j < s.len() implies m.tasks[s[i] as int].priority
                    <= m.tasks[s[j] as int].priority by {
                    assert(s.contains(s[i]) && s.contains(s[j]));
                    assert(!self.queues[q].contains(cur));
                }
            }
        }
        assert forall|x: usize| x < TASK_SLOT_COUNT && x != cur implies (#[trigger] m.task(x))
            == self.task(x) by {}
        self.lemma_runner_frame(m);
        m.lemma_frame_orderly(n);
    }

    // ---- Switches ------------------------------------------------------------------------
    /// A direct switch keeps order, and leaves exactly its target running.
    pub proof fn law_switch_keeps_order(self, previous: usize, next: usize, now: u64)
        requires
            self.orderly(),
            previous == self.current,
            previous != next,
            self.task(previous).state != State::Running,
            self.dispatchable(next),
        ensures
            self.switched(previous, next, now).orderly(),
            self.switched(previous, next, now).current == next,
            self.switched(previous, next, now).task(next).state == State::Running,
    {
        self.lemma_switched(previous, next, now);
        self.lemma_accounted(previous, next, now);
        let a = self.accounted(previous, next, now);
        let n = self.switched(previous, next, now);
        a.lemma_tidy_frame(n);
        assert(n.queues == a.queues);
        assert forall|x: usize|
            x < TASK_SLOT_COUNT && (#[trigger] n.task(x)).state == State::Running implies x
            == n.current by {
            if x != next {
                assert(n.task(x).state == self.task(x).state);
                assert(self.task(x).state == State::Running);
            }
        }
    }

    /// Without a pending switch the end of a trap finds a task that can run, as long as
    /// the idle thread, where there is one, waits for nothing.
    pub proof fn law_trap_finds_a_task_that_can_run(self, now: u64)
        requires
            self.coherent(),
            self.pending_switch is None,
            self.policy is None ==> self.dispatchable(IDLE_SLOT),
        ensures
            self.trap_target_dispatchable(now),
    {
        self.lemma_popped_coherent();
        self.lemma_rescheduled(self.time_slice_pending, now);
        let (m, target) = self.trap_choice(now);
        if let Some((previous, next)) = target {
            assert(self.task(next).state == State::Ready || next == IDLE_SLOT);
            if self.task(self.current).state == State::Running {
                let p = self.popped();
                assert(next != self.current);
                assert forall|q: int| 0 <= q < 96 implies !(#[trigger] m.queues[q]).contains(
                    next,
                ) by {
                    assert(!p.queues[q].contains(next));
                }
            }
            assert(self.tasks[next as int].state == self.task(next).state);
        }
    }

    /// A switch at the end of a trap keeps order, and leaves exactly its target running.
    #[verifier::spinoff_prover]
    #[verifier::rlimit(50)]
    pub proof fn law_trap_keeps_order(self, frame: usize, depth: u16, now: u64)
        requires
            self.orderly(),
            self.trap_target_dispatchable(now),
            self.pending_switch is Some ==> self.task(self.current).state != State::Running,
        ensures
            self.trapped(frame, depth, now).0.orderly(),
            self.started && depth == 0 ==> (self.trap_choice(now).1 matches Some(
                (previous, next),
            ) ==> {
                &&& self.trapped(frame, depth, now).0.current == next
                &&& self.trapped(frame, depth, now).0.task(next).state == State::Running
            }),
    {
        self.lemma_trapped(frame, depth, now);
        let (m, target) = self.trap_choice(now);
        let n = self.trapped(frame, depth, now).0;
        if self.pending_switch is Some {
            self.lemma_frame_orderly(m);
        } else if self.task(self.current).state != State::Running {
            self.lemma_popped_coherent();
            self.lemma_popped_tidy();
            self.lemma_handed_over(self.current, now);
        } else {
            self.law_preemption_keeps_order(self.time_slice_pending, now);
        }
        if self.started && depth == 0 {
            if let Some((previous, next)) = target {
                let s = m.trap_switched(previous, next, frame, now);
                m.lemma_accounted(previous, next, now);
                let a = m.accounted(previous, next, now);
                a.lemma_tidy_frame(s);
                assert(s.queues == a.queues);
                assert(m.task(previous).state != State::Running);
                assert forall|x: usize|
                    x < TASK_SLOT_COUNT && (#[trigger] s.task(x)).state
                        == State::Running implies x == s.current by {
                    if x != next {
                        assert(s.task(x).state == m.task(x).state);
                        assert(m.task(x).state == State::Running);
                    }
                }
                s.lemma_tidy_frame(n);
                s.lemma_runner_of(n);
            }
        }
    }

    proof fn lemma_runner_of(self, other: SchedModel)
        requires
            self.lone_runner(),
            other.tasks == self.tasks,
            other.current == self.current,
        ensures
            other.lone_runner(),
    {
        self.lemma_runner_frame(other);
    }

    /// Withdrawing a switch request keeps order, and neither loses nor doubles its target:
    /// a ready target is queued once, in its own ready queue. The idle thread stays out.
    pub proof fn law_withdrawn_switch_strands_no_task(self, slot: usize)
        requires
            self.orderly(),
            slot < TASK_SLOT_COUNT,
        ensures
            self.restored(slot).orderly(),
            self.task(slot).state == State::Ready && !self.is_idle(slot) ==> {
                &&& self.restored(slot).ready_queued(slot)
                &&& self.restored(slot).queues[self.ready_key(slot)].no_duplicates()
                &&& forall|q: int|
                    0 <= q < 96 && #[trigger] self.restored(slot).queues[q].contains(slot) ==> q
                        == self.ready_key(slot)
            },
            self.is_idle(slot) ==> self.restored(slot) == self,
    {
        self.lemma_restored(slot);
        let n = self.restored(slot);
        self.lemma_runner_frame(n);
        assert(self.tasks[slot as int].priority < 32);
        if self.task(slot).state == State::Ready && !self.is_idle(slot) {
            if !self.ready_queued(slot) {
                links::lemma_appended(self.queues[self.ready_key(slot)], slot);
            }
            assert(n.ready_key(slot) == self.ready_key(slot));
            assert(n.queues[n.ready_key(slot)].contains(slot));
        }
    }

    /// Whatever becomes of a switch request, order is kept.
    pub proof fn law_switch_request_keeps_order(self, intent: SwitchIntent)
        requires
            self.orderly(),
            intent.source < TASK_SLOT_COUNT,
            intent.target < TASK_SLOT_COUNT,
        ensures
            self.intent_committed(intent).0.orderly(),
            self.switch_recovered(intent.source, intent.target).0.orderly(),
    {
        let d = self.diagnostics;
        let a = self.with_diagnostics(
            Diagnostics {
                switch_intents_cancelled_identity: metrics::bumped(
                    d.switch_intents_cancelled_identity,
                ),
                ..d
            },
        );
        let b = self.with_diagnostics(
            Diagnostics {
                switch_intents_cancelled_stale: metrics::bumped(d.switch_intents_cancelled_stale),
                switch_race_recoveries: metrics::bumped(d.switch_race_recoveries),
                ..d
            },
        );
        let c = self.with_diagnostics(
            Diagnostics {
                switch_race_recoveries: metrics::bumped(d.switch_race_recoveries),
                ..d
            },
        );
        self.lemma_frame_orderly(a);
        self.lemma_frame_orderly(b);
        self.lemma_frame_orderly(c);
        a.law_withdrawn_switch_strands_no_task(intent.target);
        b.law_withdrawn_switch_strands_no_task(intent.target);
        c.law_withdrawn_switch_strands_no_task(intent.target);
        if !self.intent_foreign(intent) && !self.intent_stale(intent) {
            self.lemma_frame_orderly(self.intent_committed(intent).0);
        }
    }
}

} // verus!
