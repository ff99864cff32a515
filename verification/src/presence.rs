//! No ready task is lost.
//!
//! A ready task that stands in no ready queue would never run again. Two tasks may be
//! ready and out of every queue: the idle thread, which is the last resort and needs no
//! queue, and the task that a switch under way has already taken out.
use vstd::prelude::*;
use crate::config::{Diagnostics, NIL, TASK_SLOT_COUNT};
use crate::kernel::NextTask;
use crate::lifecycle::{BootContext, SpawnRequest};
use crate::metrics;
use crate::model::{SchedModel, SwitchIntent};
use crate::reservation;
use crate::running;
use crate::scheduling::{BudgetState, RunPolicy};
use crate::semaphore;
use crate::semaphore::WaitStep;
use crate::task::{State, Tcb};

verus! {

/// The target of a switch from the first task to the second, or nobody.
pub open spec fn target_of(switch: Option<(usize, usize)>) -> usize {
    match switch {
        Some((_, next)) => next,
        None => NIL,
    }
}

impl SchedModel {
    /// Every ready task is in its ready queue, except for the idle thread and for
    /// `target`, which a switch under way has taken out.
    pub open spec fn none_lost(self, target: usize) -> bool {
        forall|slot: usize|
            slot < TASK_SLOT_COUNT && slot != target && (#[trigger] self.task(slot)).state
                == State::Ready && !self.is_idle(slot) ==> self.ready_queued(slot)
    }

    // ---- Frames ----------------------------------------------------------------
    proof fn lemma_stirred_presence(self, other: SchedModel, target: usize)
        requires
            self.none_lost(target),
            self.stirred(other),
        ensures
            other.none_lost(target),
    {
        assert forall|slot: usize|
            slot < TASK_SLOT_COUNT && slot != target && (#[trigger] other.task(slot)).state
                == State::Ready && !other.is_idle(slot) implies other.ready_queued(slot) by {
            assert(self.stays_queued(other, slot));
            assert(self.task(slot).state == State::Ready ==> self.ready_queued(slot));
        }
    }

    /// The queues stay as they are, and nobody becomes ready.
    proof fn lemma_presence_frame(self, other: SchedModel, target: usize)
        requires
            self.none_lost(target),
            other.queues == self.queues,
            other.policy == self.policy,
            forall|x: usize|
                x < TASK_SLOT_COUNT && (#[trigger] other.task(x)).state == State::Ready
                    ==> self.task(x).state == State::Ready && other.task(x).priority == self.task(
                    x,
                ).priority,
        ensures
            other.none_lost(target),
    {
        assert forall|slot: usize|
            slot < TASK_SLOT_COUNT && slot != target && (#[trigger] other.task(slot)).state
                == State::Ready && !other.is_idle(slot) implies other.ready_queued(slot) by {
            assert(self.ready_queued(slot));
        }
    }

    /// A task that becomes ready is there as well.
    proof fn lemma_made_ready_presence(self, slot: usize, now: u64, target: usize)
        requires
            self.fits(),
            self.none_lost(target),
            slot < TASK_SLOT_COUNT,
        ensures
            self.made_ready(slot, now).none_lost(target),
    {
        let n = self.made_ready(slot, now);
        assert forall|x: usize| x < TASK_SLOT_COUNT implies (#[trigger] self.task(x)).priority
            < 32 by {
            assert(self.tasks[x as int].priority < 32);
        }
        self.lemma_made_ready_queued(slot, now);
        assert forall|x: usize|
            x < TASK_SLOT_COUNT && x != target && (#[trigger] n.task(x)).state == State::Ready
                && !n.is_idle(x) implies n.ready_queued(x) by {
            if x != slot {
                assert(n.task(x) == self.task(x));
                assert(self.ready_queued(x));
            }
        }
    }

    /// Only the task that is chosen leaves.
    proof fn lemma_popped_presence(self)
        requires
            self.coherent(),
            self.none_lost(NIL),
        ensures
            self.popped().none_lost(self.pop_slot()),
    {
        self.lemma_first_ready(0);
        let n = self.popped();
        assert forall|x: usize|
            x < TASK_SLOT_COUNT && x != self.pop_slot() && (#[trigger] n.task(x)).state
                == State::Ready && !n.is_idle(x) implies n.ready_queued(x) by {
            assert(self.task(x).state == State::Ready);
            assert(self.ready_queued(x));
            assert(self.tasks[x as int].priority < 32);
            if let Some(level) = self.first_ready() {
                running::lemma_others_follow(self.queues[level]);
            }
        }
    }

    /// The switch to a task that was taken out ends with that task running.
    proof fn lemma_running_presence(self, other: SchedModel, target: usize)
        requires
            self.none_lost(target),
            other.queues == self.queues,
            other.policy == self.policy,
            target < TASK_SLOT_COUNT ==> other.task(target).state != State::Ready,
            forall|x: usize|
                x < TASK_SLOT_COUNT && x != target ==> (#[trigger] other.task(x)).state
                    == self.task(x).state && other.task(x).priority == self.task(x).priority,
        ensures
            other.none_lost(NIL),
    {
        assert forall|x: usize|
            x < TASK_SLOT_COUNT && x != NIL && (#[trigger] other.task(x)).state == State::Ready
                && !other.is_idle(x) implies other.ready_queued(x) by {
            assert(self.task(x).state == State::Ready);
            assert(self.ready_queued(x));
        }
    }

    // ---- What follows ------------------------------------------------------------
    /// While no switch is under way, a ready task is found: some task is chosen next, and
    /// its level is at least as good.
    pub proof fn law_ready_task_is_found(self, slot: usize)
        requires
            self.coherent(),
            self.none_lost(NIL),
            slot < TASK_SLOT_COUNT,
            self.task(slot).state == State::Ready,
            !self.is_idle(slot),
        ensures
            self.pop_slot() < TASK_SLOT_COUNT,
            self.task(self.pop_slot()).state == State::Ready,
            self.ready_key(self.pop_slot()) <= self.ready_key(slot),
    {
        self.law_next_task_is_best(slot);
    }

    // ---- Start -----------------------------------------------------------------
    /// A fresh scheduler has lost nobody, nor has it once it has started.
    pub proof fn law_start_loses_nobody(self, boot: BootContext, trap: bool)
        requires
            self == SchedModel::initial(self.policy, self.time_slice),
        ensures
            self.none_lost(NIL),
            self.booted(boot, trap).none_lost(NIL),
    {
        assert forall|slot: usize| slot < TASK_SLOT_COUNT implies (#[trigger] self.task(slot)).state
            != State::Ready by {}
        let n = self.booted(boot, trap);
        assert forall|slot: usize|
            slot < TASK_SLOT_COUNT && slot != NIL && (#[trigger] n.task(slot)).state
                == State::Ready && !n.is_idle(slot) implies n.ready_queued(slot) by {
            assert(self.task(slot).state != State::Ready);
        }
    }

    // ---- Deadlines -------------------------------------------------------------
    /// Serving deadlines loses nobody: whoever wakes is queued.
    pub proof fn law_waking_loses_nobody(self, now: u64, target: usize)
        requires
            self.coherent(),
            self.none_lost(target),
        ensures
            self.all_woken(now).none_lost(target),
    {
        self.lemma_all_woken_stirred(now);
        self.lemma_stirred_presence(self.all_woken(now), target);
    }

    /// A timer interrupt loses nobody.
    pub proof fn law_timer_loses_nobody(self, now: u64, limit: u32, target: usize)
        requires
            self.coherent(),
            self.none_lost(target),
        ensures
            self.timer_interrupted(now, limit).0.none_lost(target),
    {
        let d = self.with_diagnostics(
            Diagnostics {
                timer_interrupts: metrics::bumped(self.diagnostics.timer_interrupts),
                ..self.diagnostics
            },
        );
        self.lemma_coherent_frame(d);
        self.lemma_presence_frame(d, target);
        d.law_waking_loses_nobody(now, target);
        d.lemma_all_woken(now);
        d.all_woken(now).lemma_presence_frame(self.timer_interrupted(now, limit).0, target);
    }

    // ---- Semaphores ------------------------------------------------------------
    /// Acquiring a semaphore loses nobody.
    pub proof fn law_semaphore_down_loses_nobody(
        self,
        sem: int,
        timeout_ms: u32,
        now: u64,
        delivery: bool,
        target: usize,
    )
        requires
            self.coherent(),
            self.none_lost(target),
            0 <= sem < 32,
        ensures
            self.sem_down(sem, timeout_ms, now, delivery).0.none_lost(target),
    {
        let (n, r) = self.sem_down(sem, timeout_ms, now, delivery);
        assert forall|x: usize|
            x < TASK_SLOT_COUNT && x != target && (#[trigger] n.task(x)).state == State::Ready
                && !n.is_idle(x) implies n.ready_queued(x) by {
            assert(n.task(x) == self.task(x));
            assert(self.ready_queued(x));
            assert(self.tasks[x as int].priority < 32);
        }
    }

    /// Releasing a semaphore loses nobody: the waiter that it is granted to is queued.
    pub proof fn law_semaphore_up_loses_nobody(self, sem: int, now: u64, target: usize)
        requires
            self.coherent(),
            self.none_lost(target),
            0 <= sem < 32,
        ensures
            self.sem_released(sem, now).none_lost(target),
    {
        self.lemma_sem_released_stirred(sem, now);
        self.lemma_stirred_presence(self.sem_released(sem, now), target);
    }

    // ---- Mutexes ---------------------------------------------------------------
    /// Acquiring a mutex loses nobody, although the owner may move to another ready queue.
    pub proof fn law_mutex_lock_loses_nobody(
        self,
        mutex: int,
        timeout_ms: u32,
        now: u64,
        delivery: bool,
        target: usize,
    )
        requires
            self.coherent(),
            self.none_lost(target),
            0 <= mutex < 32,
            self.task(self.current).state == State::Running,
        ensures
            self.mutex_lock(mutex, timeout_ms, now, delivery).0.none_lost(target),
    {
        let (n, r) = self.mutex_lock(mutex, timeout_ms, now, delivery);
        let owner = self.mutex_owner[mutex];
        if r matches Ok(WaitStep::Blocked(_)) {
            let parked = self.mutex_parked(mutex, semaphore::wait_deadline(timeout_ms, now));
            assert forall|x: usize|
                x < TASK_SLOT_COUNT && x != target && (#[trigger] parked.task(x)).state
                    == State::Ready && !parked.is_idle(x) implies parked.ready_queued(x) by {
                assert(parked.task(x) == self.task(x));
                assert(self.ready_queued(x));
                assert(self.tasks[x as int].priority < 32);
            }
            parked.lemma_inheritance_added_posed(owner, self.task(self.current).priority);
            parked.lemma_posed_stirred(n);
            parked.lemma_stirred_presence(n, target);
        } else {
            self.lemma_presence_frame(n, target);
        }
    }

    /// Releasing a mutex loses nobody: the waiter that it is handed to is queued.
    pub proof fn law_mutex_unlock_loses_nobody(self, mutex: int, now: u64, target: usize)
        requires
            self.coherent(),
            self.none_lost(target),
            0 <= mutex < 32,
        ensures
            self.mutex_unlock(mutex, now).0.none_lost(target),
    {
        let depth = self.mutex_depth[mutex];
        if self.mutex_owner[mutex] == self.current && depth != 0 {
            let m = self.with_mutex(mutex, self.current, (depth - 1) as u32);
            assert(m.mutex_owner =~= self.mutex_owner);
            self.lemma_coherent_frame(m);
            self.lemma_presence_frame(m, target);
            if depth == 1 {
                m.lemma_mutex_released_stirred(mutex, self.current, now);
                m.lemma_stirred_presence(m.mutex_released(mutex, self.current, now), target);
            }
        }
    }

    /// Cancelling a wait loses nobody.
    pub proof fn law_cancellation_loses_nobody(self, slot: usize, now: u64, target: usize)
        requires
            self.coherent(),
            self.none_lost(target),
            slot < TASK_SLOT_COUNT,
        ensures
            self.wait_cancelled(slot, now).0.none_lost(target),
    {
        self.lemma_wait_cancelled_stirred(slot, now);
        self.lemma_stirred_presence(self.wait_cancelled(slot, now).0, target);
    }

    // ---- Giving way ------------------------------------------------------------
    /// Yielding takes out the task that it hands over to, and no other.
    pub proof fn law_yield_loses_nobody(self, now: u64)
        requires
            self.coherent(),
            self.none_lost(NIL),
            self.task(self.current).state == State::Running,
        ensures
            self.yield_step(now).0.none_lost(
                match self.yield_step(now).1 {
                    Some(next) => next,
                    None => NIL,
                },
            ),
    {
        let d = self.with_diagnostics(
            Diagnostics { yields: metrics::bumped(self.diagnostics.yields), ..self.diagnostics },
        );
        self.lemma_coherent_frame(d);
        self.lemma_presence_frame(d, NIL);
        d.law_waking_loses_nobody(now, NIL);
        d.lemma_all_woken(now);
        let woken = d.all_woken(now);
        if woken.pop_slot() != NIL {
            woken.lemma_popped_presence();
            woken.lemma_popped_coherent();
            woken.popped().lemma_made_ready_presence(self.current, now, woken.pop_slot());
        }
    }

    /// Preemption takes out the task that takes over, and no other.
    pub proof fn law_preemption_loses_nobody(self, allow_equal: bool, now: u64)
        requires
            self.coherent(),
            self.none_lost(NIL),
        ensures
            self.rescheduled(allow_equal, now).0.none_lost(
                target_of(self.rescheduled(allow_equal, now).1),
            ),
    {
        if self.takeover_due(allow_equal) {
            self.lemma_popped_presence();
            self.lemma_popped_coherent();
            self.popped().lemma_made_ready_presence(self.current, now, self.pop_slot());
        }
    }

    /// Choosing a successor takes out that task, and no other.
    proof fn lemma_replaced_presence(self)
        requires
            self.coherent(),
            self.none_lost(NIL),
        ensures
            self.replaced().0.none_lost(target_of(self.replaced().1)),
    {
        self.lemma_popped_presence();
        self.lemma_first_ready(0);
        self.lemma_popped_coherent();
    }

    /// Sleeping loses nobody.
    pub proof fn law_sleep_loses_nobody(self, wake_at: u64, target: usize)
        requires
            self.coherent(),
            self.none_lost(target),
        ensures
            self.slept(wake_at).none_lost(target),
    {
        self.lemma_presence_frame(self.slept(wake_at), target);
    }

    /// When a task can no longer run, the one that is chosen in its place is taken out, and
    /// no other.
    pub proof fn law_switching_away_loses_nobody(self, previous: usize, now: u64, ported: bool)
        requires
            self.coherent(),
            self.none_lost(NIL),
        ensures
            self.switched_away(previous, now, ported).0.none_lost(
                match self.switched_away(previous, now, ported).1 {
                    NextTask::Switch(intent) => intent.target,
                    _ => NIL,
                },
            ),
    {
        self.law_waking_loses_nobody(now, NIL);
        self.lemma_all_woken(now);
        let woken = self.all_woken(now);
        woken.lemma_popped_presence();
        woken.lemma_popped_coherent();
        woken.lemma_first_ready(0);
        let m = woken.popped();
        if woken.pop_or_idle_slot() != NIL {
            if woken.pop_slot() == NIL {
                m.lemma_presence_frame(m.intent_counted(), NIL);
            } else {
                m.lemma_presence_frame(m.intent_counted(), woken.pop_slot());
            }
        }
    }

    // ---- Scheduler lock --------------------------------------------------------
    /// Taking and releasing the scheduler lock loses nobody. What follows the release takes
    /// out the task that takes over, and no other.
    pub proof fn law_scheduler_lock_loses_nobody(self, now: u64)
        requires
            self.coherent(),
            self.none_lost(NIL),
            self.task(self.current).state == State::Running,
        ensures
            self.locked(now).none_lost(NIL),
            self.unlocked(now).none_lost(NIL),
            self.unlocked(now).after_unlock(now).0.none_lost(
                target_of(self.unlocked(now).after_unlock(now).1),
            ),
    {
        let u = self.unlocked(now);
        self.lemma_presence_frame(self.locked(now), NIL);
        self.lemma_presence_frame(u, NIL);
        self.lemma_unqueued_when_idle_state(self.current);
        assert(self.tasks[self.current as int].priority < 32);
        assert(self.tasks[self.current as int].base_priority < 32);
        assert(self.tasks[self.current as int].granted_sem <= 32);
        assert(!self.queues[self.ready_key(self.current)].contains(self.current));
        self.lemma_tweak_coherent(self.current, u.task(self.current));
        if u.overrun_due() {
            let o = u.overrun_throttled(now);
            u.lemma_presence_frame(o, NIL);
            u.lemma_overrun_throttled(now);
            o.lemma_replaced_presence();
        } else {
            let r = u.rescheduled(u.time_slice_pending, now);
            u.law_preemption_loses_nobody(u.time_slice_pending, now);
            r.0.lemma_presence_frame(u.after_unlock(now).0, target_of(r.1));
        }
    }

    // ---- Tasks -----------------------------------------------------------------
    /// Changing a base priority loses nobody, although tasks move to other ready queues.
    pub proof fn law_priority_change_loses_nobody(self, slot: usize, priority: u8, target: usize)
        requires
            self.coherent(),
            self.none_lost(target),
            slot < TASK_SLOT_COUNT,
            priority < 32,
        ensures
            self.base_priority_set(slot, priority).none_lost(target),
    {
        self.lemma_base_priority_set(slot, priority);
        self.lemma_stirred_presence(self.base_priority_set(slot, priority), target);
    }

    /// Changing a run policy loses nobody.
    pub proof fn law_policy_change_loses_nobody(
        self,
        slot: usize,
        policy: RunPolicy,
        now: u64,
        target: usize,
    )
        requires
            self.coherent(),
            self.none_lost(target),
            slot < TASK_SLOT_COUNT,
        ensures
            self.with_run_policy(slot, policy, now).none_lost(target),
    {
        let t = self.task(slot);
        let fresh = BudgetState::fresh(policy, now);
        let t2 = Tcb {
            run_policy: policy,
            budget: if t.state == State::Running {
                fresh.dispatched(now)
            } else {
                fresh
            },
            ..t
        };
        let n = self.with_run_policy(slot, policy, now);
        let m = self.with_task(slot, t2);
        self.lemma_presence_frame(m, target);
        assert(self.tasks[slot as int].priority < 32);
        if t.state == State::Ready && self.ready_queued(slot) {
            let key = self.ready_key(slot);
            running::lemma_others_left(self.queues[key], slot);
            let r = self.ready_removed(slot).with_task(slot, t2);
            running::lemma_joined(r.queues[key], slot);
            assert forall|x: usize|
                x < TASK_SLOT_COUNT && x != target && (#[trigger] n.task(x)).state
                    == State::Ready && !n.is_idle(x) implies n.ready_queued(x) by {
                assert(self.tasks[x as int].priority < 32);
                if x != slot {
                    assert(n.task(x) == self.task(x));
                    assert(self.ready_queued(x));
                }
            }
        } else if t.state == State::Throttled {
            self.lemma_fits_with_task(slot, t2);
            m.lemma_made_ready_presence(slot, now, target);
        }
    }

    /// Creating a task loses nobody: the new task is queued.
    pub proof fn law_spawn_loses_nobody(
        self,
        slot: usize,
        request: SpawnRequest,
        stack: usize,
        size: usize,
        now: u64,
        trap: bool,
        target: usize,
    )
        requires
            self.coherent(),
            self.none_lost(target),
            slot < TASK_SLOT_COUNT,
            self.task(slot).state == State::Free,
            request.priority < 32,
        ensures
            self.spawned(slot, request, stack, size, now, trap).none_lost(target),
    {
        let t = self.new_task(slot, request, stack, size, now, trap);
        let m = SchedModel {
            slot_generations: self.slot_generations.update(
                slot as int,
                reservation::next_generation(self.slot_generations[slot as int]),
            ),
            ..self.with_task(slot, t)
        };
        assert(m.fits()) by {
            assert forall|i: int| 0 <= i < TASK_SLOT_COUNT implies {
                let t = #[trigger] m.tasks[i];
                &&& t.priority < 32
                &&& t.base_priority < 32
                &&& t.waiting_sem <= 32
                &&& t.waiting_mutex <= 32
                &&& t.granted_sem <= 32
                &&& t.granted_mutex <= 32
            } by {
                assert(self.tasks[i].priority < 32);
            }
        }
        self.lemma_presence_frame(m, target);
        m.lemma_made_ready_presence(slot, now, target);
    }

    /// Ending a task loses no other.
    pub proof fn law_exit_loses_nobody(self, target: usize)
        requires
            self.coherent(),
            self.none_lost(target),
        ensures
            self.exited().none_lost(target),
    {
        self.lemma_presence_frame(self.exited(), target);
    }

    // ---- Switches --------------------------------------------------------------
    /// A direct switch leaves every ready task queued: its target runs.
    pub proof fn law_switch_loses_nobody(self, previous: usize, next: usize, now: u64)
        requires
            self.coherent(),
            self.none_lost(next),
            previous < TASK_SLOT_COUNT,
            next < TASK_SLOT_COUNT,
        ensures
            self.switched(previous, next, now).none_lost(NIL),
    {
        self.lemma_running_presence(self.switched(previous, next, now), next);
    }

    /// The end of an interrupt takes out the task that takes over, and no other.
    pub proof fn law_interrupt_end_loses_nobody(self, depth: u16, now: u64)
        requires
            self.coherent(),
            self.none_lost(NIL),
        ensures
            self.irq_epilogue(depth, now).0.none_lost(target_of(self.irq_epilogue(depth, now).1)),
    {
        if self.task(self.current).state != State::Running {
            self.lemma_replaced_presence();
        } else {
            self.law_preemption_loses_nobody(self.time_slice_pending, now);
        }
        let (m, switch) = self.epilogue_choice(now);
        if self.started && depth == 0 && switch is Some {
            m.lemma_presence_frame(self.irq_epilogue(depth, now).0, target_of(switch));
        }
    }

    /// The end of a trap leaves every ready task queued: the target of a pending switch,
    /// or of the one that the trap itself calls for, runs.
    pub proof fn law_trap_loses_nobody(self, frame: usize, now: u64)
        requires
            self.coherent(),
            self.started,
            self.none_lost(
                match self.pending_switch {
                    Some(intent) => intent.target,
                    None => NIL,
                },
            ),
            self.pending_switch matches Some(intent) ==> intent.target < TASK_SLOT_COUNT,
        ensures
            self.trapped(frame, 0, now).0.none_lost(NIL),
    {
        let (m, switch) = self.trap_choice(now);
        if let Some(intent) = self.pending_switch {
            self.lemma_presence_frame(m, intent.target);
        } else if self.task(self.current).state != State::Running {
            self.lemma_replaced_presence();
            self.lemma_popped_coherent();
        } else {
            self.law_preemption_loses_nobody(self.time_slice_pending, now);
            self.lemma_rescheduled(self.time_slice_pending, now);
        }
        if let Some((previous, next)) = switch {
            assert(previous == self.current);
            assert(next < TASK_SLOT_COUNT);
            assert(m.none_lost(next));
            let s = m.trap_switched(previous, next, frame, now);
            m.lemma_running_presence(s, next);
            s.lemma_presence_frame(self.trapped(frame, 0, now).0, NIL);
        }
    }

    /// A switch request that is withdrawn gives its target back, as long as the target's
    /// slot still belongs to it; one that is accepted keeps it until the switch is made.
    pub proof fn law_switch_request_loses_nobody(self, intent: SwitchIntent)
        requires
            self.coherent(),
            self.none_lost(intent.target),
            intent.target < TASK_SLOT_COUNT,
            self.task(intent.target).identity_generation == intent.target_generation,
        ensures
            self.intent_committed(intent).1 ==> self.intent_committed(intent).0.none_lost(
                intent.target,
            ),
            !self.intent_committed(intent).1 ==> self.intent_committed(intent).0.none_lost(NIL),
            self.switch_recovered(intent.source, intent.target).1 ==> self.switch_recovered(
                intent.source,
                intent.target,
            ).0.none_lost(NIL),
    {
        let (n, committed) = self.intent_committed(intent);
        if committed {
            self.lemma_presence_frame(n, intent.target);
        } else {
            self.lemma_restored_presence(n, intent.target);
        }
        let (r, recovered) = self.switch_recovered(intent.source, intent.target);
        if recovered {
            self.lemma_restored_presence(r, intent.target);
        }
    }

    proof fn lemma_restored_presence(self, other: SchedModel, target: usize)
        requires
            self.coherent(),
            self.none_lost(target),
            target < TASK_SLOT_COUNT,
            exists|d: Diagnostics| other == self.with_diagnostics(d).restored(target),
        ensures
            other.none_lost(NIL),
    {
        let d = choose|d: Diagnostics| other == self.with_diagnostics(d).restored(target);
        let m = self.with_diagnostics(d);
        assert(self.tasks[target as int].priority < 32);
        assert(m.ready_key(target) == self.ready_key(target));
        running::lemma_joined(self.queues[self.ready_key(target)], target);
        assert forall|x: usize|
            x < TASK_SLOT_COUNT && x != NIL && (#[trigger] other.task(x)).state == State::Ready
                && !other.is_idle(x) implies other.ready_queued(x) by {
            assert(self.tasks[x as int].priority < 32);
            assert(self.task(x).state == State::Ready);
            if x != target {
                assert(self.ready_queued(x));
            }
        }
    }
}

} // verus!
