//! What requests lead to.
use vstd::prelude::*;
use crate::config::{Diagnostics, NIL, TASK_SLOT_COUNT};
use crate::error::{DriverError, WaitOutcome};
use crate::lifecycle::SpawnRequest;
use crate::metrics;
use crate::model::SchedModel;
use crate::objects;
use crate::scheduling::RunPolicy;
use crate::semaphore::WaitStep;
use crate::task::{State, Tcb};

verus! {

impl SchedModel {
    // ---- Objects -----------------------------------------------------------------
    /// Whoever asks for a semaphore with a free count, or for a mutex without an owner, gets
    /// it at once, whatever the timeout and in whatever context.
    pub proof fn law_free_object_is_taken_at_once(
        self,
        object: int,
        timeout_ms: u32,
        now: u64,
        delivery: bool,
    )
        requires
            self.fits(),
            0 <= object < 32,
        ensures
            self.sem_counts[object] > 0 ==> ({
                let (n, answer) = self.sem_down(object, timeout_ms, now, delivery);
                &&& answer == Ok::<WaitStep, DriverError>(WaitStep::Acquired)
                &&& n.sem_counts[object] == self.sem_counts[object] - 1
                &&& n.tasks == self.tasks && n.queues == self.queues
                &&& forall|x: int|
                    0 <= x < 32 && x != object ==> #[trigger] n.sem_counts[x]
                        == self.sem_counts[x]
            }),
            self.mutex_owner[object] == NIL ==> ({
                let (n, answer) = self.mutex_lock(object, timeout_ms, now, delivery);
                &&& answer == Ok::<WaitStep, DriverError>(WaitStep::Acquired)
                &&& n.mutex_owner[object] == self.current
                &&& n.mutex_depth[object] == 1
                &&& n.tasks == self.tasks && n.queues == self.queues
                &&& forall|x: int|
                    0 <= x < 32 && x != object ==> #[trigger] n.mutex_owner[x]
                        == self.mutex_owner[x]
            }),
    {
    }

    /// Whoever does not want to wait is told at once that nothing is available, in whatever
    /// context, and nothing changes.
    pub proof fn law_no_wait_gives_up_at_once(self, object: int, now: u64, delivery: bool)
        ensures
            self.sem_counts[object] <= 0 ==> self.sem_down(object, 0, now, delivery) == (
                self,
                Ok::<WaitStep, DriverError>(WaitStep::TimedOut),
            ),
            self.mutex_owner[object] != NIL && self.mutex_owner[object] != self.current
                ==> self.mutex_lock(object, 0, now, delivery) == (
                self,
                Ok::<WaitStep, DriverError>(WaitStep::TimedOut),
            ),
    {
    }

    /// A wait for a semaphore that a release ended has acquired it, and one that its
    /// deadline ended has timed out. Either way nothing of it is left.
    pub proof fn law_wait_ends_as_it_should(self, sem: int, slot: usize, now: u64)
        requires
            self.coherent(),
            0 <= sem < 32,
            slot < TASK_SLOT_COUNT,
            self.task(slot).waiting_sem == sem + 1,
        ensures
            self.sem_waiters(sem).len() > 0 && self.sem_waiters(sem)[0] == slot
                ==> objects::outcome_of(self.sem_released(sem, now).tasks[slot as int].sem_granted)
                == WaitOutcome::Acquired,
            self.task(slot).wake_at != 0 && now >= self.task(slot).wake_at ==> objects::outcome_of(
                self.all_woken(now).tasks[slot as int].sem_granted,
            ) == WaitOutcome::TimedOut,
            !self.sem_grant_consumed().tasks[self.current as int].sem_granted,
            self.sem_grant_consumed().tasks[self.current as int].granted_sem == 0,
            !self.mutex_grant_consumed().tasks[self.current as int].sem_granted,
            self.mutex_grant_consumed().tasks[self.current as int].granted_mutex == 0,
    {
        assert(self.task(slot).state == State::Blocked);
        self.law_examination_serves_what_is_due(slot, now);
    }

    // ---- Tasks -------------------------------------------------------------------
    /// A new task is ready with the priority and policy that were asked for, on its stack,
    /// with a full quota if its policy has one; no other task is touched.
    pub proof fn law_new_task_is_as_asked(
        self,
        slot: usize,
        request: SpawnRequest,
        stack: usize,
        size: usize,
        now: u64,
        trap: bool,
    )
        requires
            self.fits(),
            slot < TASK_SLOT_COUNT,
            request.priority < 32,
        ensures
            ({
                let n = self.spawned(slot, request, stack, size, now, trap);
                let u = n.tasks[slot as int];
                &&& u.state == State::Ready
                &&& !self.is_idle(slot) ==> n.ready_queued(slot)
                &&& u.priority == request.priority && u.base_priority == request.priority
                &&& u.run_policy == request.run_policy
                &&& u.entry == Some(request.entry) && u.arg == request.arg
                &&& u.stack == stack && u.stack_size == size
                &&& u.wake_at == 0
                &&& match request.run_policy {
                    RunPolicy::Budgeted(spec) => {
                        &&& u.budget.spec == Some(spec)
                        &&& u.budget.remaining == spec.capacity_ms()
                        &&& now + spec.period_ms() <= u64::MAX ==> u.budget.replenishes_at == now
                            + spec.period_ms()
                        &&& u.budget.running_since is None
                    },
                    _ => u.budget.spec is None && u.budget.remaining == 0,
                }
                &&& forall|x: int|
                    0 <= x < TASK_SLOT_COUNT && x != slot ==> #[trigger] n.tasks[x]
                        == self.tasks[x]
            }),
    {
        let n = self.spawned(slot, request, stack, size, now, trap);
        if !self.is_idle(slot) {
            let key = n.ready_key(slot);
            assert(n.queues[key][n.queues[key].len() - 1] == slot);
        }
    }

    /// A change of priority sets the base priority that was asked for and leaves that of
    /// every other task, their states, waits and policies alone.
    pub proof fn law_base_priority_is_as_asked(self, slot: usize, priority: u8)
        requires
            self.coherent(),
            slot < TASK_SLOT_COUNT,
            priority < 32,
        ensures
            ({
                let n = self.base_priority_set(slot, priority);
                &&& n.tasks[slot as int].base_priority == priority
                &&& forall|x: int|
                    0 <= x < TASK_SLOT_COUNT ==> {
                        let t = self.tasks[x];
                        let u = #[trigger] n.tasks[x];
                        &&& x != slot ==> u.base_priority == t.base_priority
                        &&& u.state == t.state && u.run_policy == t.run_policy
                        &&& u.waiting_sem == t.waiting_sem && u.waiting_mutex == t.waiting_mutex
                        &&& u.wake_at == t.wake_at && u.budget == t.budget
                    }
            }),
    {
        let m = self.with_task(slot, Tcb { base_priority: priority, ..self.task(slot) });
        self.lemma_base_priority_set(slot, priority);
        m.lemma_waits_sems();
        assert(m.chain_live(slot, TASK_SLOT_COUNT as nat));
        m.lemma_refreshed(slot, TASK_SLOT_COUNT as nat);
        let n = self.base_priority_set(slot, priority);
        assert forall|x: int| 0 <= x < TASK_SLOT_COUNT implies {
            let t = self.tasks[x];
            let u = #[trigger] n.tasks[x];
            &&& x != slot ==> u.base_priority == t.base_priority
            &&& x == slot ==> u.base_priority == priority
            &&& u.state == t.state && u.run_policy == t.run_policy
            &&& u.waiting_sem == t.waiting_sem && u.waiting_mutex == t.waiting_mutex
            &&& u.wake_at == t.wake_at && u.budget == t.budget
        } by {
            assert(n.tasks[x] == (Tcb {
                priority: n.tasks[x].priority,
                inherited_waiters: n.tasks[x].inherited_waiters,
                ..m.tasks[x]
            }));
        }
    }

    // ---- Time slices -------------------------------------------------------------
    /// A time slice that starts at `now` lasts as long as the policy says: a timer interrupt
    /// before its end does not end it, one at its end or later does, and programming the
    /// timer anew meanwhile does not prolong it.
    pub proof fn law_time_slice_lasts_as_configured(
        self,
        slice_ms: u32,
        now: u64,
        later: u64,
        limit: u32,
    )
        requires
            self.coherent(),
            match self.policy {
                None => {
                    &&& self.task(self.current).run_policy matches RunPolicy::Preemptive {
                        time_slice,
                    } && time_slice@ == slice_ms
                    &&& self.queues[self.task(self.current).priority as int].len() > 0
                },
                Some(_) => {
                    &&& self.time_slice matches Some(time_slice) && time_slice@ == slice_ms
                    &&& exists|q: int| 0 <= q < 32 && (#[trigger] self.queues[q]).len() > 0
                },
            },
            slice_ms > 0,
            self.time_slice_deadline == 0,
            !self.time_slice_pending,
            now + slice_ms <= u64::MAX,
        ensures
            ({
                let s = self.time_sliced(now).0;
                &&& s.timer_interrupted(later, limit).0.time_slice_pending <==> later >= now
                    + slice_ms
                &&& s.time_sliced(later).0.time_slice_deadline == s.time_slice_deadline
                &&& s.time_sliced(later).1 == self.time_sliced(now).1
            }),
    {
        let s = self.time_sliced(now).0;
        self.lemma_first_ready(0);
        s.lemma_first_ready(0);
        self.lemma_coherent_frame(s);
        let d = s.with_diagnostics(
            Diagnostics {
                timer_interrupts: metrics::bumped(s.diagnostics.timer_interrupts),
                ..s.diagnostics
            },
        );
        s.lemma_coherent_frame(d);
        d.lemma_slice_untouched(later);
    }
}

} // verus!
