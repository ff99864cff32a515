//! The task that a switch is to run.
//!
//! Between the moment at which a task is chosen and the switch to it, interrupts and other
//! tasks may come in. The chosen task is out of every queue all that time, and stays able
//! to run.
use vstd::prelude::*;
use crate::config::{Diagnostics, IDLE_SLOT, NIL, TASK_SLOT_COUNT};
use crate::kernel::NextTask;
use crate::lifecycle::{BootContext, SpawnRequest};
use crate::metrics;
use crate::model::{SchedModel, SwitchIntent};
use crate::running;
use crate::scheduling::RunPolicy;
use crate::semaphore;
use crate::semaphore::WaitStep;
use crate::task::State;

verus! {

impl SchedModel {
    /// `slot` has been taken out to run next: it is ready, or the idle thread, and can
    /// start running.
    pub open spec fn poised(self, slot: usize) -> bool {
        &&& self.dispatchable(slot)
        &&& self.task(slot).state == State::Ready || self.is_idle(slot)
    }

    /// The idle thread, where there is one, can always start running.
    pub open spec fn idle_at_hand(self) -> bool {
        self.policy is None ==> self.dispatchable(IDLE_SLOT)
    }

    // ---- Frames ----------------------------------------------------------------
    /// Whoever is poised and joins no ready queue is still poised.
    proof fn lemma_poised_frame(self, other: SchedModel, x: usize)
        requires
            self.poised(x),
            other.coherent(),
            other.policy == self.policy,
            self.task(x).state == State::Ready ==> other.task(x).state == State::Ready,
            other.task(x).waiting_sem == 0,
            other.task(x).waiting_mutex == 0,
            other.enlisted(x) ==> self.enlisted(x),
        ensures
            other.poised(x),
    {
        assert(!self.enlisted(x)) by {
            if self.enlisted(x) {
                let q = choose|q: int| 0 <= q < 32 && (#[trigger] self.queues[q]).contains(x);
                assert(!self.queues[q].contains(x));
            }
        }
        assert forall|q: int| 0 <= q < 96 implies !(#[trigger] other.queues[q]).contains(x) by {
            if other.queues[q].contains(x) {
                assert(q == other.home(x));
                assert(other.tasks[x as int].priority < 32);
                assert(other.enlisted(x));
            }
        }
    }

    /// The ready queues stay as they are.
    proof fn lemma_poised_queues(self, other: SchedModel, x: usize)
        requires
            self.poised(x),
            other.coherent(),
            other.policy == self.policy,
            other.task(x) == self.task(x),
            forall|q: int| 0 <= q < 32 ==> #[trigger] other.queues[q] == self.queues[q],
        ensures
            other.poised(x),
    {
        if other.enlisted(x) {
            let q = choose|q: int| 0 <= q < 32 && (#[trigger] other.queues[q]).contains(x);
            assert(self.queues[q].contains(x));
        }
        self.lemma_poised_frame(other, x);
    }

    proof fn lemma_poised_stirred(self, other: SchedModel, x: usize)
        requires
            self.poised(x),
            self.stirred(other),
            other.coherent(),
        ensures
            other.poised(x),
    {
        assert(self.stays_queued(other, x));
        self.lemma_poised_frame(other, x);
    }

    /// Taking the next task out leaves a poised one alone.
    proof fn lemma_poised_popped(self, x: usize)
        requires
            self.coherent(),
            self.poised(x),
        ensures
            self.popped().poised(x),
            self.pop_slot() != x,
    {
        self.lemma_popped_coherent();
        self.lemma_first_ready(0);
        let n = self.popped();
        if let Some(level) = self.first_ready() {
            let s = self.queues[level];
            assert(!s.contains(x));
            assert(s.contains(s[0]));
        }
        if n.enlisted(x) {
            let q = choose|q: int| 0 <= q < 32 && (#[trigger] n.queues[q]).contains(x);
            if let Some(level) = self.first_ready() {
                if q == level {
                    let s = self.queues[level];
                    let i = choose|i: int|
                        0 <= i < s.drop_first().len() && s.drop_first()[i] == x;
                    assert(s[i + 1] == x);
                }
            }
            assert(self.queues[q].contains(x));
        }
        self.lemma_poised_frame(n, x);
    }

    /// Another task that becomes ready leaves a poised one alone.
    proof fn lemma_poised_made_ready(self, slot: usize, now: u64, x: usize)
        requires
            self.fits(),
            self.poised(x),
            slot < TASK_SLOT_COUNT,
            slot != x,
            self.made_ready(slot, now).coherent(),
        ensures
            self.made_ready(slot, now).poised(x),
    {
        let n = self.made_ready(slot, now);
        assert(n.task(x) == self.task(x));
        assert(self.tasks[slot as int].priority < 32);
        if n.enlisted(x) {
            let q = choose|q: int| 0 <= q < 32 && (#[trigger] n.queues[q]).contains(x);
            let s = self.queues[q];
            if n.queues[q] != s {
                assert(n.queues[q] == s.push(slot));
                let i = choose|i: int| 0 <= i < s.push(slot).len() && s.push(slot)[i] == x;
                assert(s[i] == x);
            }
            assert(self.queues[q].contains(x));
        }
        self.lemma_poised_frame(n, x);
    }

    // ---- The choice ------------------------------------------------------------
    /// The task that takes over is able to run.
    pub proof fn law_preemption_chooses_a_task_that_can_run(self, allow_equal: bool, now: u64)
        requires
            self.coherent(),
        ensures
            self.rescheduled(allow_equal, now).1 matches Some((previous, next)) ==> {
                &&& previous == self.current
                &&& next != previous
                &&& self.rescheduled(allow_equal, now).0.poised(next)
            },
    {
        if self.takeover_due(allow_equal) {
            self.lemma_rescheduled(allow_equal, now);
            self.lemma_popped_coherent();
            let next = self.pop_slot();
            let p = self.popped();
            assert(p.poised(next)) by {
                assert(p.task(next) == self.task(next));
            }
            assert(next != self.current);
            p.lemma_poised_made_ready(self.current, now, next);
        }
    }

    /// The task that a yielding one hands over to is able to run.
    pub proof fn law_yield_chooses_a_task_that_can_run(self, now: u64)
        requires
            self.coherent(),
            self.task(self.current).state == State::Running,
        ensures
            self.yield_step(now).1 matches Some(next) ==> {
                &&& next != self.current
                &&& self.yield_step(now).0.poised(next)
            },
    {
        let d = self.with_diagnostics(
            Diagnostics { yields: metrics::bumped(self.diagnostics.yields), ..self.diagnostics },
        );
        self.lemma_coherent_frame(d);
        d.lemma_all_woken(now);
        d.lemma_all_woken_stirred(now);
        d.lemma_stirred_runner(d.all_woken(now));
        let woken = d.all_woken(now);
        if woken.pop_slot() != NIL {
            woken.lemma_popped_coherent();
            woken.lemma_yielded(self.current, now);
            let next = woken.pop_slot();
            let p = woken.popped();
            assert(p.poised(next)) by {
                assert(p.task(next) == woken.task(next));
            }
            p.lemma_poised_made_ready(self.current, now, next);
        }
    }

    /// A start puts the idle thread at hand.
    pub proof fn law_start_puts_idle_at_hand(self, boot: BootContext, trap: bool)
        requires
            self.coherent(),
            !self.started,
            self.untouched(),
        ensures
            self.booted(boot, trap).idle_at_hand(),
    {
    }

    /// The idle thread stays at hand while deadlines are served.
    pub proof fn law_idle_stays_at_hand(self, now: u64)
        requires
            self.coherent(),
            self.idle_at_hand(),
        ensures
            self.all_woken(now).idle_at_hand(),
    {
        self.lemma_all_woken(now);
        self.lemma_all_woken_stirred(now);
        if self.policy is None {
            self.lemma_poised_stirred(self.all_woken(now), IDLE_SLOT);
        }
    }

    /// The task that replaces one that can no longer run is able to run.
    pub proof fn law_switching_away_chooses_a_task_that_can_run(
        self,
        previous: usize,
        now: u64,
        ported: bool,
    )
        requires
            self.coherent(),
            self.idle_at_hand(),
        ensures
            self.switched_away(previous, now, ported).1 matches NextTask::Switch(intent)
                ==> self.switched_away(previous, now, ported).0.poised(intent.target),
    {
        self.law_idle_stays_at_hand(now);
        self.lemma_all_woken(now);
        let woken = self.all_woken(now);
        woken.lemma_replaced_poised();
        woken.lemma_popped_coherent();
        let m = woken.popped();
        let next = woken.pop_or_idle_slot();
        m.lemma_coherent_frame(m.intent_counted());
        if next != NIL {
            m.lemma_poised_queues(m.intent_counted(), next);
        }
    }

    proof fn lemma_replaced_poised(self)
        requires
            self.coherent(),
            self.idle_at_hand(),
        ensures
            self.pop_or_idle_slot() != NIL ==> self.popped().poised(self.pop_or_idle_slot()),
    {
        self.lemma_popped_coherent();
        self.lemma_first_ready(0);
        let p = self.popped();
        if self.pop_slot() != NIL {
            assert(p.task(self.pop_slot()) == self.task(self.pop_slot()));
        } else if self.policy is None {
            self.lemma_poised_popped(IDLE_SLOT);
        }
    }

    /// The task that the end of an interrupt switches to is able to run.
    pub proof fn law_interrupt_end_chooses_a_task_that_can_run(self, depth: u16, now: u64)
        requires
            self.coherent(),
            self.idle_at_hand(),
        ensures
            self.irq_epilogue(depth, now).1 matches Some((previous, next)) ==> self.irq_epilogue(
                depth,
                now,
            ).0.poised(next),
    {
        let (m, target) = self.epilogue_choice(now);
        if self.task(self.current).state != State::Running {
            self.lemma_replaced_poised();
            self.lemma_popped_coherent();
        } else {
            self.law_preemption_chooses_a_task_that_can_run(self.time_slice_pending, now);
            self.lemma_rescheduled(self.time_slice_pending, now);
        }
        if let Some((previous, next)) = target {
            let n = m.irq_switch_counted(
                self.time_slice_pending,
                self.task(self.current).priority,
                next,
            );
            m.lemma_coherent_frame(n);
            m.lemma_poised_queues(n, next);
        }
    }

    /// The task that takes over once the scheduler lock is released is able to run.
    pub proof fn law_unlock_chooses_a_task_that_can_run(self, now: u64)
        requires
            self.coherent(),
            self.idle_at_hand(),
            self.task(self.current).state == State::Running,
        ensures
            self.after_unlock(now).1 matches Some((previous, next)) ==> self.after_unlock(
                now,
            ).0.poised(next),
    {
        let n = self.after_unlock(now).0;
        if self.overrun_due() {
            let o = self.overrun_throttled(now);
            self.lemma_overrun_throttled(now);
            self.lemma_unqueued_when_idle_state(self.current);
            assert(o.idle_at_hand());
            o.lemma_replaced_poised();
        } else {
            let r = self.rescheduled(self.time_slice_pending, now);
            self.law_preemption_chooses_a_task_that_can_run(self.time_slice_pending, now);
            self.lemma_rescheduled(self.time_slice_pending, now);
            r.0.lemma_coherent_frame(n);
            if let Some((previous, next)) = r.1 {
                r.0.lemma_poised_queues(n, next);
            }
        }
    }

    /// A request that is accepted leaves its target able to run, and the next trap takes
    /// that very target.
    pub proof fn law_accepted_request_keeps_its_target(self, intent: SwitchIntent, now: u64)
        requires
            self.coherent(),
            self.poised(intent.target),
            self.intent_committed(intent).1,
        ensures
            self.intent_committed(intent).0.pending_switch == Some(intent),
            self.intent_committed(intent).0.poised(intent.target),
            self.intent_committed(intent).0.trap_choice(now).1 == Some(
                (self.current, intent.target),
            ),
            self.intent_committed(intent).0.trap_target_dispatchable(now),
    {
        let n = self.intent_committed(intent).0;
        self.lemma_coherent_frame(n);
        self.lemma_poised_queues(n, intent.target);
        n.law_pending_target_can_run(intent, now);
    }

    /// As long as the target of a pending switch is able to run, a trap can run it.
    pub proof fn law_pending_target_can_run(self, intent: SwitchIntent, now: u64)
        requires
            self.coherent(),
            self.pending_switch == Some(intent),
            self.poised(intent.target),
        ensures
            self.trap_choice(now).1 == Some((self.current, intent.target)),
            self.trap_target_dispatchable(now),
    {
        let m = self.pending_consumed();
        self.lemma_coherent_frame(m);
        self.lemma_poised_queues(m, intent.target);
    }

    // ---- Until the switch --------------------------------------------------------
    /// Timer interrupts, and what they wake, leave the chosen task able to run.
    pub proof fn law_timer_keeps_the_target(self, now: u64, limit: u32, target: usize)
        requires
            self.orderly(),
            self.poised(target),
            target != self.current,
        ensures
            self.all_woken(now).poised(target),
            self.time_sliced(now).0.poised(target),
            self.timer_interrupted(now, limit).0.poised(target),
    {
        let d = self.with_diagnostics(
            Diagnostics {
                timer_interrupts: metrics::bumped(self.diagnostics.timer_interrupts),
                ..self.diagnostics
            },
        );
        self.law_timer_keeps_order(now, limit);
        self.lemma_all_woken(now);
        self.lemma_all_woken_stirred(now);
        self.lemma_poised_stirred(self.all_woken(now), target);
        self.lemma_coherent_frame(self.time_sliced(now).0);
        self.lemma_poised_queues(self.time_sliced(now).0, target);
        self.lemma_coherent_frame(d);
        self.lemma_poised_queues(d, target);
        d.lemma_all_woken(now);
        d.lemma_all_woken_stirred(now);
        d.lemma_poised_stirred(d.all_woken(now), target);
        let n = self.timer_interrupted(now, limit).0;
        assert(n.task(target) == d.all_woken(now).task(target));
        d.all_woken(now).lemma_poised_queues(n, target);
    }

    /// Entering and leaving interrupts leave the chosen task able to run.
    pub proof fn law_interrupts_keep_the_target(self, now: u64, target: usize)
        requires
            self.coherent(),
            self.poised(target),
            target != self.current,
        ensures
            self.irq_entered(now).poised(target),
            self.irq_left(now).poised(target),
    {
        let entered = self.irq_entered(now);
        let left = self.irq_left(now);
        assert(self.tasks[self.current as int].base_priority < 32);
        self.lemma_tweak_coherent(self.current, entered.task(self.current));
        self.lemma_tweak_coherent(self.current, left.task(self.current));
        self.lemma_poised_queues(entered, target);
        self.lemma_poised_queues(left, target);
    }

    /// What other tasks do with semaphores leaves the chosen task able to run.
    pub proof fn law_semaphores_keep_the_target(
        self,
        sem: int,
        timeout_ms: u32,
        now: u64,
        delivery: bool,
        target: usize,
    )
        requires
            self.orderly(),
            0 <= sem < 32,
            self.poised(target),
            target != self.current,
        ensures
            self.sem_released(sem, now).poised(target),
            self.task(self.current).state == State::Running ==> self.sem_down(
                sem,
                timeout_ms,
                now,
                delivery,
            ).0.poised(target),
    {
        self.law_semaphore_up_keeps_order(sem, now);
        self.lemma_sem_released_stirred(sem, now);
        self.lemma_poised_stirred(self.sem_released(sem, now), target);
        if self.task(self.current).state == State::Running {
            let n = self.sem_down(sem, timeout_ms, now, delivery).0;
            self.law_semaphore_down_keeps_order(sem, timeout_ms, now, delivery);
            assert(n.task(target) == self.task(target));
            self.lemma_poised_queues(n, target);
        }
    }

    /// What other tasks do with mutexes leaves the chosen task able to run.
    pub proof fn law_mutexes_keep_the_target(
        self,
        mutex: int,
        timeout_ms: u32,
        now: u64,
        delivery: bool,
        target: usize,
    )
        requires
            self.orderly(),
            0 <= mutex < 32,
            self.task(self.current).state == State::Running,
            self.task(self.current).granted_mutex == 0,
            self.poised(target),
            target != self.current,
        ensures
            self.mutex_lock(mutex, timeout_ms, now, delivery).0.poised(target),
            self.mutex_unlock(mutex, now).0.poised(target),
    {
        let (n, r) = self.mutex_lock(mutex, timeout_ms, now, delivery);
        let owner = self.mutex_owner[mutex];
        self.law_mutex_lock_keeps_order(mutex, timeout_ms, now, delivery);
        self.law_mutex_unlock_keeps_order(mutex, now);
        if r matches Ok(WaitStep::Blocked(_)) {
            let parked = self.mutex_parked(mutex, semaphore::wait_deadline(timeout_ms, now));
            self.lemma_mutex_blocked(mutex, semaphore::wait_deadline(timeout_ms, now));
            parked.lemma_inheritance_added_posed(owner, self.task(self.current).priority);
            assert(parked.task(target) == self.task(target));
            assert(n.task(target).state == parked.task(target).state);
            assert(parked.stays_queued(n, target));
            if parked.enlisted(target) {
                let q = choose|q: int|
                    0 <= q < 32 && (#[trigger] parked.queues[q]).contains(target);
                assert(self.queues[q].contains(target));
            }
            self.lemma_poised_frame(n, target);
        } else {
            self.lemma_poised_queues(n, target);
        }
        let depth = self.mutex_depth[mutex];
        let u = self.mutex_unlock(mutex, now).0;
        if self.mutex_owner[mutex] == self.current && depth == 1 {
            let m = self.with_mutex(mutex, self.current, 0);
            assert(m.mutex_owner =~= self.mutex_owner);
            self.lemma_coherent_frame(m);
            self.lemma_poised_queues(m, target);
            m.lemma_mutex_released_stirred(mutex, self.current, now);
            m.lemma_poised_stirred(u, target);
        } else {
            self.lemma_poised_queues(u, target);
        }
    }

    proof fn lemma_poised_after_unlock(self, now: u64, target: usize)
        requires
            self.coherent(),
            self.poised(target),
            target != self.current,
            self.task(self.current).state == State::Running,
        ensures
            self.after_unlock(now).1 matches Some((previous, next)) ==> next != target
                || self.is_idle(target),
            self.after_unlock(now).0.poised(target),
    {
        let n = self.after_unlock(now).0;
        if self.overrun_due() {
            let o = self.overrun_throttled(now);
            self.lemma_overrun_throttled(now);
            self.lemma_poised_queues(o, target);
            o.lemma_poised_popped(target);
        } else {
            let r = self.rescheduled(self.time_slice_pending, now);
            self.lemma_poised_rescheduled(self.time_slice_pending, now, target);
            self.lemma_rescheduled(self.time_slice_pending, now);
            r.0.lemma_coherent_frame(n);
            r.0.lemma_poised_queues(n, target);
        }
    }

    proof fn lemma_poised_rescheduled(self, allow_equal: bool, now: u64, target: usize)
        requires
            self.coherent(),
            self.poised(target),
            target != self.current,
        ensures
            self.rescheduled(allow_equal, now).1 matches Some((previous, next)) ==> next != target,
            self.rescheduled(allow_equal, now).0.poised(target),
    {
        self.lemma_poised_popped(target);
        self.lemma_popped_coherent();
        if self.takeover_due(allow_equal) {
            self.lemma_rescheduled(allow_equal, now);
            self.popped().lemma_poised_made_ready(self.current, now, target);
        }
    }

    /// Cancelling waits, sleeping and the scheduler lock leave the chosen task able to run.
    /// Nobody but the idle thread is chosen twice.
    pub proof fn law_waits_and_locks_keep_the_target(
        self,
        slot: usize,
        wake_at: u64,
        now: u64,
        target: usize,
    )
        requires
            self.orderly(),
            slot < TASK_SLOT_COUNT,
            self.poised(target),
            target != self.current,
        ensures
            self.wait_cancelled(slot, now).0.poised(target),
            self.task(self.current).state == State::Running ==> {
                &&& self.slept(wake_at).poised(target)
                &&& self.locked(now).poised(target)
                &&& self.task(self.current).scheduler_lock_depth != 0 ==> {
                    &&& self.unlocked(now).poised(target)
                    &&& self.unlocked(now).after_unlock(now).1 matches Some((previous, next))
                        ==> next != target || self.is_idle(target)
                    &&& self.unlocked(now).after_unlock(now).0.poised(target)
                }
            },
    {
        self.law_cancellation_keeps_order(slot, now);
        self.lemma_wait_cancelled_stirred(slot, now);
        self.lemma_poised_stirred(self.wait_cancelled(slot, now).0, target);
        if self.task(self.current).state == State::Running {
            self.law_sleep_keeps_order(wake_at);
            self.lemma_poised_queues(self.slept(wake_at), target);
            self.law_lock_keeps_order(now);
            self.lemma_poised_queues(self.locked(now), target);
            if self.task(self.current).scheduler_lock_depth != 0 {
                self.law_unlock_keeps_order(now);
                let u = self.unlocked(now);
                self.lemma_poised_queues(u, target);
                u.lemma_poised_after_unlock(now, target);
            }
        }
    }

    /// Changing the priority or the policy of any task, the chosen one too, leaves the
    /// chosen task able to run.
    pub proof fn law_configuration_keeps_the_target(
        self,
        slot: usize,
        priority: u8,
        policy: RunPolicy,
        now: u64,
        target: usize,
    )
        requires
            self.orderly(),
            slot < TASK_SLOT_COUNT,
            priority < 32,
            self.poised(target),
        ensures
            self.base_priority_set(slot, priority).poised(target),
            self.with_run_policy(slot, policy, now).poised(target),
    {
        self.lemma_base_priority_set(slot, priority);
        self.lemma_poised_stirred(self.base_priority_set(slot, priority), target);
        let n = self.with_run_policy(slot, policy, now);
        self.law_policy_change_keeps_order(slot, policy, now);
        assert(self.tasks[slot as int].priority < 32);
        if n.enlisted(target) {
            let q = choose|q: int| 0 <= q < 32 && (#[trigger] n.queues[q]).contains(target);
            if target == slot {
                assert(!self.queues[self.ready_key(slot)].contains(slot));
                assert(n.queues[q] == self.queues[q]);
            } else if self.task(slot).state == State::Ready && self.ready_queued(slot) {
                let key = self.ready_key(slot);
                if q == key {
                    let left = self.ready_removed(slot).queues[key];
                    running::lemma_only_others_left(self.queues[key], slot);
                    let i = choose|i: int|
                        0 <= i < left.push(slot).len() && left.push(slot)[i] == target;
                    assert(left[i] == target);
                    assert(left.contains(target));
                }
            } else if self.task(slot).state == State::Throttled {
                let s = self.queues[q];
                if n.queues[q] != s {
                    let i = choose|i: int|
                        0 <= i < s.push(slot).len() && s.push(slot)[i] == target;
                    assert(s[i] == target);
                }
            }
            assert(self.queues[q].contains(target));
        }
        self.lemma_poised_frame(n, target);
    }

    /// Tasks that give way to others, are created or end leave the chosen task able to run,
    /// and are never replaced by it a second time.
    pub proof fn law_other_tasks_keep_the_target(
        self,
        allow_equal: bool,
        slot: usize,
        request: SpawnRequest,
        stack: usize,
        size: usize,
        now: u64,
        trap: bool,
        target: usize,
    )
        requires
            self.orderly(),
            self.poised(target),
            target != self.current,
            slot < TASK_SLOT_COUNT,
            request.priority < 32,
        ensures
            self.pop_slot() != target,
            self.popped().poised(target),
            self.rescheduled(allow_equal, now).0.poised(target),
            self.task(self.current).state == State::Running ==> self.yield_step(now).0.poised(
                target,
            ),
            self.task(slot).state == State::Free && slot != target && self.owes_nobody(slot)
                ==> self.spawned(slot, request, stack, size, now, trap).poised(target),
            self.task(self.current).state == State::Running && self.owes_nobody(self.current)
                ==> self.exited().poised(target),
    {
        self.lemma_poised_popped(target);
        self.lemma_poised_rescheduled(allow_equal, now, target);
        if self.task(self.current).state == State::Running {
            let d = self.with_diagnostics(
                Diagnostics { yields: metrics::bumped(self.diagnostics.yields), ..self.diagnostics },
            );
            self.lemma_coherent_frame(d);
            self.lemma_poised_queues(d, target);
            d.lemma_all_woken(now);
            d.lemma_all_woken_stirred(now);
            d.lemma_stirred_runner(d.all_woken(now));
            let woken = d.all_woken(now);
            d.lemma_poised_stirred(woken, target);
            if woken.pop_slot() != NIL {
                woken.lemma_poised_popped(target);
                woken.lemma_popped_coherent();
                woken.lemma_yielded(self.current, now);
                woken.popped().lemma_poised_made_ready(self.current, now, target);
            }
        }
        if self.task(slot).state == State::Free && slot != target && self.owes_nobody(slot) {
            self.law_spawn_keeps_order(slot, request, stack, size, now, trap);
            let n = self.spawned(slot, request, stack, size, now, trap);
            assert(n.task(target) == self.task(target));
            if n.enlisted(target) {
                let q = choose|q: int| 0 <= q < 32 && (#[trigger] n.queues[q]).contains(target);
                let s = self.queues[q];
                if n.queues[q] != s {
                    let i = choose|i: int|
                        0 <= i < s.push(slot).len() && s.push(slot)[i] == target;
                    assert(s[i] == target);
                }
                assert(self.queues[q].contains(target));
            }
            self.lemma_poised_frame(n, target);
        }
        if self.task(self.current).state == State::Running && self.owes_nobody(self.current) {
            self.law_exit_keeps_order();
            self.lemma_poised_queues(self.exited(), target);
        }
    }

    /// Choosing once more leaves the chosen task able to run. Nobody but the idle thread is
    /// chosen twice.
    pub proof fn law_other_choices_keep_the_target(
        self,
        previous: usize,
        depth: u16,
        now: u64,
        ported: bool,
        target: usize,
    )
        requires
            self.coherent(),
            self.poised(target),
            target != self.current,
        ensures
            self.switched_away(previous, now, ported).0.poised(target),
            self.switched_away(previous, now, ported).1 matches NextTask::Switch(intent)
                ==> intent.target != target || self.is_idle(target),
            self.irq_epilogue(depth, now).0.poised(target),
            self.irq_epilogue(depth, now).1 matches Some((current, next)) ==> next != target
                || self.is_idle(target),
    {
        let woken = self.all_woken(now);
        self.lemma_all_woken(now);
        self.lemma_all_woken_stirred(now);
        self.lemma_poised_stirred(woken, target);
        woken.lemma_poised_popped(target);
        woken.lemma_popped_coherent();
        let p = woken.popped();
        p.lemma_coherent_frame(p.intent_counted());
        p.lemma_poised_queues(p.intent_counted(), target);
        let (m, choice) = self.epilogue_choice(now);
        if self.task(self.current).state != State::Running {
            self.lemma_poised_popped(target);
            self.lemma_popped_coherent();
        } else {
            self.lemma_poised_rescheduled(self.time_slice_pending, now, target);
            self.lemma_rescheduled(self.time_slice_pending, now);
        }
        if let Some((current, next)) = choice {
            let n = m.irq_switch_counted(
                self.time_slice_pending,
                self.task(self.current).priority,
                next,
            );
            m.lemma_coherent_frame(n);
            m.lemma_poised_queues(n, target);
        }
    }

    /// Switches to other tasks leave the chosen task able to run, and so do requests for
    /// them, whatever becomes of those.
    pub proof fn law_other_switches_keep_the_target(
        self,
        previous: usize,
        next: usize,
        intent: SwitchIntent,
        now: u64,
        target: usize,
    )
        requires
            self.orderly(),
            self.poised(target),
            next != target,
            previous != target,
            intent.source < TASK_SLOT_COUNT,
            intent.target < TASK_SLOT_COUNT,
            intent.target != target,
        ensures
            previous == self.current && previous != next && self.task(previous).state
                != State::Running && self.dispatchable(next) ==> self.switched(
                previous,
                next,
                now,
            ).poised(target),
            self.intent_committed(intent).0.poised(target),
            self.switch_recovered(intent.source, intent.target).0.poised(target),
    {
        if previous == self.current && previous != next && self.task(previous).state
            != State::Running && self.dispatchable(next) {
            let n = self.switched(previous, next, now);
            self.law_switch_keeps_order(previous, next, now);
            assert(n.task(target) == self.task(target));
            self.lemma_poised_queues(n, target);
        }
        self.law_switch_request_keeps_order(intent);
        self.lemma_poised_restored(self.intent_committed(intent).0, intent.target, target);
        self.lemma_poised_restored(
            self.switch_recovered(intent.source, intent.target).0,
            intent.target,
            target,
        );
    }

    /// A trap that switches to another task, or to none, leaves the chosen task able to run.
    pub proof fn law_other_traps_keep_the_target(
        self,
        frame: usize,
        depth: u16,
        now: u64,
        target: usize,
    )
        requires
            self.orderly(),
            self.trap_target_dispatchable(now),
            self.pending_switch is Some ==> self.task(self.current).state != State::Running,
            self.poised(target),
            target != self.current,
            self.trap_choice(now).1 matches Some((previous, next)) ==> next != target,
        ensures
            self.trapped(frame, depth, now).0.poised(target),
    {
        self.law_trap_keeps_order(frame, depth, now);
        if self.started && depth == 0 {
            let (m, choice) = self.trap_choice(now);
            let n = self.trapped(frame, depth, now).0;
            if self.pending_switch is Some {
                self.lemma_coherent_frame(m);
                self.lemma_poised_queues(m, target);
            } else if self.task(self.current).state != State::Running {
                self.lemma_poised_popped(target);
            } else {
                self.lemma_poised_rescheduled(self.time_slice_pending, now, target);
            }
            if let Some((previous, next)) = choice {
                assert(n.task(target) == m.task(target));
                m.lemma_poised_queues(n, target);
            }
        }
    }

    proof fn lemma_poised_restored(self, other: SchedModel, slot: usize, x: usize)
        requires
            self.coherent(),
            other.coherent(),
            self.poised(x),
            slot < TASK_SLOT_COUNT,
            slot != x,
            other.policy == self.policy,
            other.tasks == self.tasks,
            other.queues == self.queues || other.queues == self.pushed(slot).queues,
        ensures
            other.poised(x),
    {
        assert(self.tasks[slot as int].priority < 32);
        if other.enlisted(x) {
            let q = choose|q: int| 0 <= q < 32 && (#[trigger] other.queues[q]).contains(x);
            let s = self.queues[q];
            if other.queues[q] != s {
                let i = choose|i: int| 0 <= i < s.push(slot).len() && s.push(slot)[i] == x;
                assert(s[i] == x);
            }
            assert(self.queues[q].contains(x));
        }
        self.lemma_poised_frame(other, x);
    }
}

} // verus!
