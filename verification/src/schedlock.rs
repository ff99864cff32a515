//! The nested, per-task scheduler lock.
use vstd::prelude::*;
use crate::config::{Diagnostics, NIL, TASK_SLOT_COUNT};
use crate::error::DriverError;
use crate::metrics;
use crate::metrics::bump;
use crate::model::SchedModel;
use crate::scheduler::Sched;
use crate::task::{State, Tcb};

verus! {

impl SchedModel {
    /// The current task locks the scheduler once more at `now`.
    pub open spec fn locked(self, now: u64) -> SchedModel {
        let t = self.task(self.current);
        let outermost = if t.scheduler_lock_depth == 0 {
            Tcb {
                scheduler_lock_started_at: Some(now),
                metrics: t.metrics.lock_entered(),
                ..t
            }
        } else {
            t
        };
        self.with_task(
            self.current,
            Tcb { scheduler_lock_depth: (t.scheduler_lock_depth + 1) as u16, ..outermost },
        ).with_diagnostics(
            Diagnostics {
                scheduler_locks: metrics::bumped(self.diagnostics.scheduler_locks),
                ..self.diagnostics
            },
        )
    }

    /// The current task unlocks the scheduler once at `now`.
    pub open spec fn unlocked(self, now: u64) -> SchedModel {
        let t = self.task(self.current);
        let inner = Tcb { scheduler_lock_depth: (t.scheduler_lock_depth - 1) as u16, ..t };
        self.with_task(
            self.current,
            if t.scheduler_lock_depth == 1 {
                Tcb {
                    scheduler_lock_started_at: None,
                    metrics: t.metrics.lock_left(
                        metrics::open_span(t.scheduler_lock_started_at, now),
                    ),
                    ..inner
                }
            } else {
                inner
            },
        )
    }

    /// The current task uses up a quota whose exhaustion the lock had deferred.
    pub open spec fn overrun_throttled(self, now: u64) -> SchedModel {
        let t = self.task(self.current);
        self.with_task(
            self.current,
            Tcb { budget: t.budget.overrun_applied(now), state: State::Throttled, ..t },
        ).with_diagnostics(
            Diagnostics {
                budget_throttles: metrics::bumped(self.diagnostics.budget_throttles),
                ..self.diagnostics
            },
        )
    }

    /// A deferred exhaustion takes effect with the next outermost unlock.
    pub open spec fn overrun_due(self) -> bool {
        let t = self.task(self.current);
        t.scheduler_lock_depth == 0 && t.budget.lock_overrun_pending && t.budget.spec is Some
    }

    /// What follows an unlock: a deferred throttle, or a takeover.
    pub open spec fn after_unlock(self, now: u64) -> (SchedModel, Option<(usize, usize)>) {
        if self.overrun_due() {
            self.overrun_throttled(now).replaced()
        } else {
            let r = self.rescheduled(self.time_slice_pending, now);
            if r.1 is Some {
                (SchedModel { time_slice_pending: false, ..r.0 }, r.1)
            } else {
                r
            }
        }
    }

    pub(crate) proof fn lemma_overrun_throttled(self, now: u64)
        requires
            self.coherent(),
            self.task(self.current).state == State::Running,
        ensures
            self.overrun_throttled(now).coherent(),
            self.tidy() ==> self.overrun_throttled(now).tidy(),
    {
        let cur = self.current;
        let t = self.task(cur);
        let t2 = Tcb { budget: t.budget.overrun_applied(now), state: State::Throttled, ..t };
        self.lemma_unqueued_when_idle_state(cur);
        assert(self.tasks[cur as int].base_priority < 32);
        self.lemma_tweak_coherent(cur, t2);
        let m = self.with_task(cur, t2);
        m.lemma_coherent_frame(self.overrun_throttled(now));
        self.lemma_tidy_frame(self.overrun_throttled(now));
    }
}

impl Sched {
    /// Locks the scheduler once more for the current task.
    pub fn lock_current(&mut self, now: u64) -> (r: Result<(), DriverError>)
        requires
            old(self).wf(),
            old(self)@.coherent(),
        ensures
            final(self).wf(),
            final(self)@.coherent(),
            if old(self)@.task(old(self)@.current).scheduler_lock_depth == u16::MAX {
                r == Err::<(), _>(DriverError::Runtime) && final(self)@ == old(self)@
            } else {
                r is Ok && final(self)@ == old(self)@.locked(now)
            },
    {
        let ghost m0 = self@;
        let current: usize = self.current;
        proof {
            assert(m0.tasks[current as int] == self.tasks@[current as int].unlinked());
            assert(m0.tasks[current as int].base_priority < 32);
            m0.lemma_ready_queued_is_ready(current);
        }
        let mut block = self.tasks[current];
        if block.scheduler_lock_depth == u16::MAX {
            return Err(DriverError::Runtime);
        }
        if block.scheduler_lock_depth == 0 {
            block.scheduler_lock_started_at = Some(now);
            block.metrics.on_lock();
        }
        block.scheduler_lock_depth = block.scheduler_lock_depth + 1;
        proof {
            m0.lemma_tweak_coherent(current, block.unlinked());
        }
        self.set_task(current, block);
        let ghost m1 = self@;
        self.diagnostics.scheduler_locks = bump(self.diagnostics.scheduler_locks);
        proof {
            m1.lemma_coherent_frame(self@);
            assert(self@ =~= m0.locked(now));
        }
        Ok(())
    }

    /// Unlocks the scheduler once for the current task.
    pub fn unlock_current(&mut self, now: u64) -> (r: Result<(), DriverError>)
        requires
            old(self).wf(),
            old(self)@.coherent(),
        ensures
            final(self).wf(),
            final(self)@.coherent(),
            if old(self)@.task(old(self)@.current).scheduler_lock_depth == 0 {
                r == Err::<(), _>(DriverError::InvalidContext) && final(self)@ == old(self)@
            } else {
                r is Ok && final(self)@ == old(self)@.unlocked(now)
            },
    {
        let ghost m0 = self@;
        let current: usize = self.current;
        proof {
            assert(m0.tasks[current as int] == self.tasks@[current as int].unlinked());
            assert(m0.tasks[current as int].base_priority < 32);
            m0.lemma_ready_queued_is_ready(current);
        }
        let mut block = self.tasks[current];
        if block.scheduler_lock_depth == 0 {
            return Err(DriverError::InvalidContext);
        }
        block.scheduler_lock_depth = block.scheduler_lock_depth - 1;
        if block.scheduler_lock_depth == 0 {
            let held: u64 = match block.scheduler_lock_started_at {
                Some(started) => now.saturating_sub(started),
                None => 0,
            };
            block.metrics.on_unlock(held);
            block.scheduler_lock_started_at = None;
        }
        proof {
            m0.lemma_tweak_coherent(current, block.unlinked());
        }
        self.set_task(current, block);
        assert(self@ =~= m0.unlocked(now));
        Ok(())
    }

    /// Unlocks the scheduler once and takes the switch that the unlock lets happen.
    pub fn unlock_current_and_take_preemption(&mut self, now: u64) -> (r: Result<
        Option<(usize, usize)>,
        DriverError,
    >)
        requires
            old(self).wf(),
            old(self)@.coherent(),
            old(self)@.task(old(self)@.current).state == State::Running,
        ensures
            final(self).wf(),
            final(self)@.coherent(),
            if old(self)@.task(old(self)@.current).scheduler_lock_depth == 0 {
                r == Err::<Option<(usize, usize)>, _>(DriverError::InvalidContext) && final(self)@
                    == old(self)@
            } else {
                &&& r is Ok
                &&& (final(self)@, r->Ok_0) == old(self)@.unlocked(now).after_unlock(now)
                &&& r->Ok_0 matches Some((source, next)) ==> source < TASK_SLOT_COUNT && next
                    < TASK_SLOT_COUNT
            },
    {
        match self.unlock_current(now) {
            Ok(_) => {},
            Err(error) => {
                return Err(error);
            },
        }
        let ghost m0 = self@;
        let current: usize = self.current;
        proof {
            assert(m0.tasks[current as int] == self.tasks@[current as int].unlinked());
            assert(m0.tasks[current as int].base_priority < 32);
        }
        if self.tasks[current].scheduler_lock_depth == 0
            && self.tasks[current].budget.lock_overrun_pending() {
            let mut block = self.tasks[current];
            match block.budget.throttle_after_lock_overrun(now) {
                Some(_) => {
                    proof {
                        m0.lemma_overrun_throttled(now);
                        m0.overrun_throttled(now).lemma_popped_coherent();
                    }
                    block.state = State::Throttled;
                    self.set_task(current, block);
                    self.diagnostics.budget_throttles = bump(self.diagnostics.budget_throttles);
                    assert(self@ =~= m0.overrun_throttled(now));
                    let next: usize = self.ready_pop_or_idle();
                    if next == NIL {
                        return Ok(None);
                    }
                    return Ok(Some((current, next)));
                },
                None => {},
            }
        }
        let target = self.take_reschedule_target(self.time_slice_pending, now);
        if target.is_some() {
            let ghost m1 = self@;
            self.time_slice_pending = false;
            proof {
                m1.lemma_coherent_frame(self@);
            }
        }
        Ok(target)
    }

    /// The current task, if it may give up the processor.
    pub fn current_switch_guard(&self) -> (r: Result<usize, DriverError>)
        requires
            self.wf(),
        ensures
            r == (if self@.task(self@.current).scheduler_lock_depth != 0 {
                Err(DriverError::InvalidContext)
            } else {
                Ok(self@.current)
            }),
    {
        let current: usize = self.current;
        assert(self@.tasks[current as int] == self.tasks@[current as int].unlinked());
        if self.tasks[current].scheduler_lock_depth != 0 {
            return Err(DriverError::InvalidContext);
        }
        Ok(current)
    }
}

} // verus!
