//! What every operation keeps of quotas and deadlines, and what a quota is for.
//!
//! A task has a quota exactly if its policy is a budgeted one, it sleeps until some time,
//! and it holds the scheduler lock since some time. Every operation keeps that.
use vstd::prelude::*;
use crate::config::{Diagnostics, NIL, TASK_SLOT_COUNT};
use crate::error::DriverError;
use crate::lifecycle::{BootContext, SpawnRequest};
use crate::metrics;
use crate::model::{SchedModel, SwitchIntent};
use crate::running;
use crate::scheduling;
use crate::scheduling::RunPolicy;
use crate::semaphore;
use crate::semaphore::WaitStep;
use crate::task::{State, Tcb};

verus! {

/// The quota of a task is the one in its policy, within its capacity and with a boundary; a
/// throttled task has one, a sleeper has a time to wake, and the scheduler lock is held
/// since some time exactly if it is held.
pub open spec fn timekept(task: Tcb) -> bool {
    &&& task.state != State::Free ==> task.budget.spec == (match task.run_policy {
        RunPolicy::Budgeted(spec) => Some(spec),
        _ => None,
    })
    &&& task.budget.spec matches Some(spec) ==> task.budget.remaining <= spec.capacity_ms()
        && task.budget.replenishes_at != 0
    &&& task.budget.spec is None ==> task.budget.remaining == 0
        && !task.budget.lock_overrun_pending && task.budget.running_since is None
    &&& task.state == State::Throttled ==> task.budget.spec is Some
    &&& task.state == State::Sleeping ==> task.wake_at != 0
    &&& task.scheduler_lock_depth != 0 <==> task.scheduler_lock_started_at is Some
}

impl SchedModel {
    /// Every task keeps time.
    pub open spec fn all_timekept(self) -> bool {
        forall|slot: usize| slot < TASK_SLOT_COUNT ==> timekept(#[trigger] self.task(slot))
    }

    proof fn lemma_timekept_stirred(self, other: SchedModel)
        requires
            self.all_timekept(),
            self.stirred(other),
        ensures
            other.all_timekept(),
    {
        assert forall|slot: usize| slot < TASK_SLOT_COUNT implies timekept(
            #[trigger] other.task(slot),
        ) by {
            assert(timekept(self.task(slot)));
        }
    }

    /// Every other task is as it was.
    proof fn lemma_timekept_but(self, other: SchedModel, slot: usize)
        requires
            self.all_timekept(),
            slot < TASK_SLOT_COUNT,
            timekept(other.task(slot)),
            forall|x: usize|
                x < TASK_SLOT_COUNT && x != slot ==> running::keeps_time(
                    self.task(x),
                    #[trigger] other.task(x),
                ) && other.task(x).state == self.task(x).state,
        ensures
            other.all_timekept(),
    {
        assert forall|x: usize| x < TASK_SLOT_COUNT implies timekept(
            #[trigger] other.task(x),
        ) by {
            if x != slot {
                assert(timekept(self.task(x)));
            }
        }
    }

    // ---- Start -------------------------------------------------------------------
    /// A fresh scheduler keeps time, and so it does once it has started.
    pub proof fn law_start_keeps_time(self, boot: BootContext, trap: bool)
        requires
            self == SchedModel::initial(self.policy, self.time_slice),
        ensures
            self.all_timekept(),
            self.booted(boot, trap).all_timekept(),
    {
        assert forall|slot: usize| slot < TASK_SLOT_COUNT implies timekept(
            #[trigger] self.task(slot),
        ) by {}
        let n = self.booted(boot, trap);
        assert forall|slot: usize| slot < TASK_SLOT_COUNT implies timekept(
            #[trigger] n.task(slot),
        ) by {
            assert(timekept(self.task(slot)));
        }
    }

    // ---- Time --------------------------------------------------------------------
    /// Examining the tasks and timer interrupts keep time.
    pub proof fn law_timer_keeps_time(self, now: u64, limit: u32)
        requires
            self.coherent(),
            self.all_timekept(),
        ensures
            self.all_woken(now).all_timekept(),
            self.timer_interrupted(now, limit).0.all_timekept(),
            self.time_sliced(now).0.all_timekept(),
    {
        self.lemma_all_woken_stirred(now);
        self.lemma_timekept_stirred(self.all_woken(now));
        let d = self.with_diagnostics(
            Diagnostics {
                timer_interrupts: metrics::bumped(self.diagnostics.timer_interrupts),
                ..self.diagnostics
            },
        );
        self.lemma_coherent_frame(d);
        self.lemma_timekept_stirred(d);
        d.lemma_all_woken(now);
        d.lemma_all_woken_stirred(now);
        let w = d.all_woken(now);
        d.lemma_timekept_stirred(w);
        let n = self.timer_interrupted(now, limit).0;
        assert(timekept(w.task(w.current)));
        w.lemma_timekept_but(n, w.current);
        assert forall|x: usize| x < TASK_SLOT_COUNT implies timekept(
            #[trigger] self.time_sliced(now).0.task(x),
        ) by {
            assert(timekept(self.task(x)));
        }
    }

    /// Interrupts keep time.
    pub proof fn law_interrupts_keep_time(self, now: u64)
        requires
            self.fits(),
            self.all_timekept(),
        ensures
            self.irq_entered(now).all_timekept(),
            self.irq_left(now).all_timekept(),
    {
        assert(timekept(self.task(self.current)));
        self.lemma_timekept_but(self.irq_entered(now), self.current);
        self.lemma_timekept_but(self.irq_left(now), self.current);
    }

    // ---- Waits -------------------------------------------------------------------
    /// What tasks do with semaphores keeps time.
    pub proof fn law_semaphores_keep_time(
        self,
        sem: int,
        timeout_ms: u32,
        now: u64,
        delivery: bool,
    )
        requires
            self.coherent(),
            0 <= sem < 32,
            self.all_timekept(),
            self.task(self.current).state == State::Running,
        ensures
            self.sem_down(sem, timeout_ms, now, delivery).0.all_timekept(),
            self.sem_released(sem, now).all_timekept(),
            self.sem_grant_consumed().all_timekept(),
    {
        assert(timekept(self.task(self.current)));
        self.lemma_sem_released_stirred(sem, now);
        self.lemma_timekept_stirred(self.sem_released(sem, now));
        self.lemma_timekept_but(
            self.sem_down(sem, timeout_ms, now, delivery).0,
            self.current,
        );
        self.lemma_timekept_but(self.sem_grant_consumed(), self.current);
    }

    /// What tasks do with mutexes keeps time.
    pub proof fn law_mutexes_keep_time(self, mutex: int, timeout_ms: u32, now: u64, delivery: bool)
        requires
            self.coherent(),
            0 <= mutex < 32,
            self.all_timekept(),
            self.task(self.current).state == State::Running,
            self.task(self.current).granted_mutex == 0,
        ensures
            self.mutex_lock(mutex, timeout_ms, now, delivery).0.all_timekept(),
            self.mutex_unlock(mutex, now).0.all_timekept(),
            self.mutex_grant_consumed().all_timekept(),
    {
        let (n, r) = self.mutex_lock(mutex, timeout_ms, now, delivery);
        assert(timekept(self.task(self.current)));
        if r matches Ok(WaitStep::Blocked(_)) {
            let owner = self.mutex_owner[mutex];
            let parked = self.mutex_parked(mutex, semaphore::wait_deadline(timeout_ms, now));
            self.lemma_timekept_but(parked, self.current);
            self.lemma_unqueued_when_idle_state(self.current);
            self.lemma_mutex_blocked(mutex, semaphore::wait_deadline(timeout_ms, now));
            parked.lemma_inheritance_added_posed(owner, self.task(self.current).priority);
            parked.lemma_posed_stirred(n);
            parked.lemma_timekept_stirred(n);
        } else {
            self.lemma_timekept_but(n, self.current);
        }
        let depth = self.mutex_depth[mutex];
        let u = self.mutex_unlock(mutex, now).0;
        if self.mutex_owner[mutex] == self.current && depth == 1 {
            let m = self.with_mutex(mutex, self.current, 0);
            assert(m.mutex_owner =~= self.mutex_owner);
            self.lemma_coherent_frame(m);
            self.lemma_timekept_but(m, self.current);
            m.lemma_mutex_released_stirred(mutex, self.current, now);
            m.lemma_timekept_stirred(u);
        } else {
            self.lemma_timekept_but(u, self.current);
        }
        self.lemma_timekept_but(self.mutex_grant_consumed(), self.current);
    }

    /// Cancelling waits and sleeping keep time.
    pub proof fn law_pauses_keep_time(
        self,
        slot: usize,
        milliseconds: u32,
        delivery: bool,
        now: u64,
    )
        requires
            self.orderly(),
            self.all_timekept(),
            slot < TASK_SLOT_COUNT,
            self.task(self.current).state == State::Running,
        ensures
            self.wait_cancelled(slot, now).0.all_timekept(),
            self.sleep_request(milliseconds, delivery, now).0.all_timekept(),
    {
        self.lemma_wait_cancelled_stirred(slot, now);
        self.lemma_timekept_stirred(self.wait_cancelled(slot, now).0);
        assert(timekept(self.task(self.current)));
        let n = self.sleep_request(milliseconds, delivery, now).0;
        if milliseconds == 0 {
            self.law_yield_keeps_time(delivery, now);
        } else {
            self.lemma_timekept_but(n, self.current);
        }
    }

    // ---- Scheduling --------------------------------------------------------------
    proof fn lemma_timekept_made_ready(self, slot: usize, now: u64)
        requires
            self.tasks.len() == TASK_SLOT_COUNT,
            self.all_timekept(),
            slot < TASK_SLOT_COUNT,
            self.task(slot).state != State::Free,
        ensures
            self.made_ready(slot, now).all_timekept(),
    {
        assert(timekept(self.task(slot)));
        self.lemma_timekept_but(self.made_ready(slot, now), slot);
    }

    proof fn lemma_timekept_tasks(self, other: SchedModel)
        requires
            self.all_timekept(),
            other.tasks == self.tasks,
        ensures
            other.all_timekept(),
    {
        assert forall|x: usize| x < TASK_SLOT_COUNT implies timekept(
            #[trigger] other.task(x),
        ) by {
            assert(timekept(self.task(x)));
        }
    }

    /// Yielding keeps time.
    pub proof fn law_yield_keeps_time(self, delivery: bool, now: u64)
        requires
            self.coherent(),
            self.all_timekept(),
            self.task(self.current).state == State::Running,
        ensures
            self.yield_step(now).0.all_timekept(),
            self.yield_request(delivery, now).0.all_timekept(),
    {
        let d = self.with_diagnostics(
            Diagnostics { yields: metrics::bumped(self.diagnostics.yields), ..self.diagnostics },
        );
        self.lemma_coherent_frame(d);
        self.lemma_timekept_tasks(d);
        d.lemma_all_woken(now);
        d.lemma_all_woken_stirred(now);
        d.lemma_stirred_runner(d.all_woken(now));
        let w = d.all_woken(now);
        d.lemma_timekept_stirred(w);
        if w.pop_slot() != NIL {
            w.lemma_popped_coherent();
            w.lemma_timekept_tasks(w.popped());
            w.popped().lemma_timekept_made_ready(self.current, now);
        }
        let m = self.yield_step(now).0;
        m.lemma_timekept_tasks(m.intent_counted());
    }

    /// Preemption and the choice of another task keep time.
    pub proof fn law_choices_keep_time(
        self,
        allow_equal: bool,
        previous: usize,
        depth: u16,
        now: u64,
        ported: bool,
    )
        requires
            self.coherent(),
            self.all_timekept(),
        ensures
            self.rescheduled(allow_equal, now).0.all_timekept(),
            self.switched_away(previous, now, ported).0.all_timekept(),
            self.irq_epilogue(depth, now).0.all_timekept(),
    {
        self.lemma_timekept_rescheduled(allow_equal, now);
        let w = self.all_woken(now);
        self.lemma_all_woken_stirred(now);
        self.lemma_timekept_stirred(w);
        w.lemma_timekept_tasks(w.popped());
        w.lemma_timekept_tasks(w.popped().intent_counted());
        self.lemma_timekept_rescheduled(self.time_slice_pending, now);
        self.lemma_timekept_tasks(self.popped());
        let m = self.epilogue_choice(now).0;
        if self.started && depth == 0 {
            m.lemma_timekept_tasks(self.irq_epilogue(depth, now).0);
        }
    }

    proof fn lemma_timekept_rescheduled(self, allow_equal: bool, now: u64)
        requires
            self.coherent(),
            self.all_timekept(),
        ensures
            self.rescheduled(allow_equal, now).0.all_timekept(),
    {
        self.lemma_timekept_tasks(self.popped());
        if self.takeover_due(allow_equal) {
            self.lemma_rescheduled(allow_equal, now);
            self.lemma_popped_coherent();
            self.popped().lemma_timekept_made_ready(self.current, now);
        }
    }

    proof fn lemma_timekept_accounted(self, previous: usize, next: usize, now: u64)
        requires
            self.tasks.len() == TASK_SLOT_COUNT,
            self.all_timekept(),
            previous < TASK_SLOT_COUNT,
            next < TASK_SLOT_COUNT,
        ensures
            self.accounted(previous, next, now).all_timekept(),
    {
        let p = self.task(previous);
        let m = self.with_task(
            previous,
            Tcb {
                budget: p.budget.switched_out(now),
                metrics: p.metrics.switched_out(now),
                ..p
            },
        );
        assert(timekept(p));
        self.lemma_timekept_but(m, previous);
        assert(timekept(m.task(next)));
        scheduling::law_renewal_moves_the_boundary_on(m.task(next).budget, now);
        m.lemma_timekept_but(self.accounted(previous, next, now), next);
    }

    /// Switches, and requests for them, keep time.
    pub proof fn law_switches_keep_time(
        self,
        previous: usize,
        next: usize,
        intent: SwitchIntent,
        now: u64,
    )
        requires
            self.fits(),
            self.all_timekept(),
            previous < TASK_SLOT_COUNT,
            next < TASK_SLOT_COUNT,
            self.task(next).state != State::Free,
        ensures
            self.switched(previous, next, now).all_timekept(),
            self.intent_committed(intent).0.all_timekept(),
            self.pending_consumed().all_timekept(),
            self.switch_recovered(previous, next).0.all_timekept(),
    {
        assert(timekept(self.task(next)));
        if previous == next {
            self.lemma_timekept_but(self.switched(previous, next, now), next);
        } else {
            let a = self.accounted(previous, next, now);
            self.lemma_timekept_accounted(previous, next, now);
            assert(timekept(a.task(next)));
            a.lemma_timekept_but(self.switched(previous, next, now), next);
        }
        self.lemma_timekept_tasks(self.intent_committed(intent).0);
        self.lemma_timekept_tasks(self.pending_consumed());
        self.lemma_timekept_tasks(self.switch_recovered(previous, next).0);
    }

    /// The end of a trap keeps time.
    pub proof fn law_trap_keeps_time(self, frame: usize, depth: u16, now: u64)
        requires
            self.coherent(),
            self.all_timekept(),
            self.trap_target_dispatchable(now),
            self.trap_choice(now).1 matches Some((previous, next)) ==> self.trap_choice(
                now,
            ).0.task(next).state != State::Free,
        ensures
            self.trapped(frame, depth, now).0.all_timekept(),
    {
        let (m, target) = self.trap_choice(now);
        self.lemma_timekept_tasks(self.pending_consumed());
        self.lemma_timekept_tasks(self.popped());
        self.lemma_timekept_rescheduled(self.time_slice_pending, now);
        self.lemma_popped_coherent();
        self.lemma_rescheduled(self.time_slice_pending, now);
        if self.started && depth == 0 {
            if let Some((previous, next)) = target {
                let n = self.trapped(frame, depth, now).0;
                m.lemma_timekept_accounted(previous, next, now);
                let a = m.accounted(previous, next, now);
                assert(timekept(a.task(next)));
                assert(timekept(a.task(previous)));
                a.lemma_timekept_but(n, next);
            }
        }
    }

    // ---- Scheduler lock ----------------------------------------------------------
    /// The scheduler lock, and what follows its release, keep time.
    pub proof fn law_scheduler_lock_keeps_time(self, now: u64)
        requires
            self.orderly(),
            self.all_timekept(),
            self.task(self.current).state == State::Running,
        ensures
            self.task(self.current).scheduler_lock_depth < u16::MAX ==> self.locked(
                now,
            ).all_timekept(),
            self.task(self.current).scheduler_lock_depth != 0 ==> {
                &&& self.unlocked(now).all_timekept()
                &&& self.unlocked(now).after_unlock(now).0.all_timekept()
            },
    {
        assert(timekept(self.task(self.current)));
        if self.task(self.current).scheduler_lock_depth < u16::MAX {
            self.lemma_timekept_but(self.locked(now), self.current);
        }
        if self.task(self.current).scheduler_lock_depth != 0 {
            let u = self.unlocked(now);
            self.law_unlock_keeps_order(now);
            self.lemma_timekept_but(u, self.current);
            if u.overrun_due() {
                let o = u.overrun_throttled(now);
                scheduling::law_renewal_moves_the_boundary_on(u.task(u.current).budget, now);
                assert(timekept(u.task(u.current)));
                u.lemma_timekept_but(o, u.current);
                o.lemma_timekept_tasks(o.popped());
            } else {
                u.lemma_timekept_rescheduled(u.time_slice_pending, now);
                u.rescheduled(u.time_slice_pending, now).0.lemma_timekept_tasks(
                    u.after_unlock(now).0,
                );
            }
        }
    }

    // ---- Tasks -------------------------------------------------------------------
    /// Changing a priority or a policy keeps time: in whatever state the task is, its quota
    /// belongs to the new policy.
    pub proof fn law_configuration_keeps_time(
        self,
        slot: usize,
        priority: u8,
        policy: RunPolicy,
        now: u64,
    )
        requires
            self.coherent(),
            self.all_timekept(),
            slot < TASK_SLOT_COUNT,
            self.task(slot).state != State::Free,
            priority < 32,
            policy matches RunPolicy::Budgeted(spec) ==> spec.period_ms() > 0,
        ensures
            self.base_priority_set(slot, priority).all_timekept(),
            self.with_run_policy(slot, policy, now).all_timekept(),
    {
        self.lemma_base_priority_set(slot, priority);
        self.lemma_timekept_stirred(self.base_priority_set(slot, priority));
        assert(timekept(self.task(slot)));
        self.law_policy_change_gives_a_fresh_quota(slot, policy, now);
        self.lemma_timekept_but(self.with_run_policy(slot, policy, now), slot);
    }

    /// Creating and ending tasks keeps time.
    pub proof fn law_tasks_keep_time(
        self,
        slot: usize,
        request: SpawnRequest,
        stack: usize,
        size: usize,
        now: u64,
        trap: bool,
    )
        requires
            self.fits(),
            self.all_timekept(),
            slot < TASK_SLOT_COUNT,
            request.run_policy matches RunPolicy::Budgeted(spec) ==> spec.period_ms() > 0,
        ensures
            self.spawned(slot, request, stack, size, now, trap).all_timekept(),
            self.exited().all_timekept(),
    {
        assert(timekept(self.task(slot)));
        self.lemma_timekept_but(self.spawned(slot, request, stack, size, now, trap), slot);
        self.lemma_timekept_but(self.exited(), self.current);
    }

    // ---- What a quota is for -----------------------------------------------------
    /// After a change of policy at `now` the quota of the task is that of the new policy,
    /// in whatever state the task is: full, with the next boundary one period after `now`
    /// and, if the task runs, charged from `now` on. Under a policy without a quota there
    /// is none. A throttled task is ready again, any other keeps its state, and no other
    /// task is touched.
    pub proof fn law_policy_change_gives_a_fresh_quota(
        self,
        slot: usize,
        policy: RunPolicy,
        now: u64,
    )
        requires
            self.fits(),
            slot < TASK_SLOT_COUNT,
        ensures
            ({
                let t = self.tasks[slot as int];
                let n = self.with_run_policy(slot, policy, now);
                let u = n.tasks[slot as int];
                &&& u.run_policy == policy
                &&& match policy {
                    RunPolicy::Budgeted(spec) => {
                        &&& u.budget.spec == Some(spec)
                        &&& u.budget.remaining == spec.capacity_ms()
                        &&& now + spec.period_ms() <= u64::MAX ==> u.budget.replenishes_at == now
                            + spec.period_ms()
                        &&& now + spec.period_ms() > u64::MAX ==> u.budget.replenishes_at
                            == u64::MAX
                        &&& u.budget.running_since == (if t.state == State::Running {
                            Some(now)
                        } else {
                            None
                        })
                    },
                    _ => {
                        &&& u.budget.spec is None
                        &&& u.budget.remaining == 0
                        &&& u.budget.running_since is None
                    },
                }
                &&& !u.budget.lock_overrun_pending
                &&& u.state == (if t.state == State::Throttled {
                    State::Ready
                } else {
                    t.state
                })
                &&& u.priority == t.priority && u.base_priority == t.base_priority
                &&& u.scheduler_lock_depth == t.scheduler_lock_depth
                &&& u.scheduler_lock_started_at == t.scheduler_lock_started_at
                &&& u.wake_at == t.wake_at
                &&& forall|x: int|
                    0 <= x < TASK_SLOT_COUNT && x != slot ==> #[trigger] n.tasks[x]
                        == self.tasks[x]
            }),
    {
        if let RunPolicy::Budgeted(spec) = policy {
            let p = spec.period_ms() as int;
            let k = (now - now) / p + 1;
            if p == 0 {
                assert(k * p == p) by (nonlinear_arith)
                    requires
                        p == 0,
                ;
            } else {
                assert(k * p == p) by (nonlinear_arith)
                    requires
                        k == 1,
                ;
            }
        }
    }

    /// A running quota is used up when the task has run for what remained of it, and not
    /// before: a timer interrupt then throttles the task, unless it holds the scheduler
    /// lock, which only defers the throttle to the release.
    pub proof fn law_quota_bounds_the_run(self, started: u64, later: u64, limit: u32)
        requires
            self.coherent(),
            self.task(self.current).state == State::Running,
            self.task(self.current).budget.spec is Some,
            self.task(self.current).budget.running_since == Some(started),
            started <= later,
        ensures
            ({
                let t = self.tasks[self.current as int];
                let n = self.timer_interrupted(later, limit).0;
                let u = n.tasks[self.current as int];
                let over = later >= started + t.budget.remaining;
                &&& u.state == (if over && t.scheduler_lock_depth == 0 {
                    State::Throttled
                } else {
                    State::Running
                })
                &&& over ==> u.budget.remaining == 0
                &&& !over ==> u.budget.remaining == t.budget.remaining - (later - started)
                &&& over && t.scheduler_lock_depth != 0 ==> u.budget.lock_overrun_pending
                &&& u.budget.replenishes_at == t.budget.replenishes_at
                &&& u.budget.spec == t.budget.spec
            }),
    {
        let d = self.with_diagnostics(
            Diagnostics {
                timer_interrupts: metrics::bumped(self.diagnostics.timer_interrupts),
                ..self.diagnostics
            },
        );
        self.lemma_coherent_frame(d);
        d.law_examination_serves_what_is_due(self.current, later);
        d.lemma_all_woken_stirred(later);
        d.lemma_all_woken(later);
        let w = d.all_woken(later);
        assert(running::keeps_time(d.task(self.current), w.task(self.current)));
        assert(w.task(w.current).state == State::Running);
    }

    /// A task without a quota is never throttled.
    pub proof fn law_no_quota_no_throttle(self, later: u64, limit: u32)
        requires
            self.coherent(),
            self.task(self.current).state == State::Running,
            self.task(self.current).budget.spec is None,
        ensures
            self.timer_interrupted(later, limit).0.tasks[self.current as int].state
                == State::Running,
    {
        let d = self.with_diagnostics(
            Diagnostics {
                timer_interrupts: metrics::bumped(self.diagnostics.timer_interrupts),
                ..self.diagnostics
            },
        );
        self.lemma_coherent_frame(d);
        d.law_examination_serves_what_is_due(self.current, later);
        d.lemma_all_woken_stirred(later);
        d.lemma_all_woken(later);
        let w = d.all_woken(later);
        assert(running::keeps_time(d.task(self.current), w.task(self.current)));
        assert(w.task(w.current).state == State::Running);
    }
}

} // verus!
