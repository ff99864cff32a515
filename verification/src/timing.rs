//! Timer expiry, deadlines and time accounting.
use vstd::prelude::*;
use crate::config::{ContractViolation, Diagnostics, PRIORITY_LEVELS, TASK_SLOT_COUNT};
use crate::metrics;
use crate::metrics::bump;
use crate::model::SchedModel;
use crate::nonzero::NonZeroU32;
use crate::scheduler::Sched;
use crate::scheduling;
use crate::scheduling::{BudgetExpiry, RunPolicy};
use crate::task::{State, Tcb};

verus! {

impl SchedModel {
    /// The running task is charged at `now` and throttled if its quota is used up.
    pub open spec fn charged(self, now: u64) -> SchedModel {
        let t = self.task(self.current);
        let locked = t.scheduler_lock_depth != 0;
        let charged = Tcb { budget: t.budget.timed(now, locked), ..t };
        let d = self.diagnostics;
        match t.budget.expiry(now, locked) {
            BudgetExpiry::ThrottleNow => self.with_task(
                self.current,
                Tcb { state: State::Throttled, metrics: t.metrics.exhausted(), ..charged },
            ).with_diagnostics(
                Diagnostics {
                    budget_exhaustions: metrics::bumped(d.budget_exhaustions),
                    budget_throttles: metrics::bumped(d.budget_throttles),
                    ..d
                },
            ),
            BudgetExpiry::DeferredBySchedulerLock => self.with_task(
                self.current,
                Tcb { metrics: t.metrics.exhausted(), ..charged },
            ).with_diagnostics(
                Diagnostics {
                    budget_exhaustions: metrics::bumped(d.budget_exhaustions),
                    budget_lock_overruns: metrics::bumped(d.budget_lock_overruns),
                    ..d
                },
            ),
            _ => self.with_task(self.current, charged),
        }
    }

    /// The current task has held the scheduler lock for at least `limit` at `now`.
    pub open spec fn lock_violation(self, now: u64, limit: u32) -> Option<ContractViolation> {
        match self.task(self.current).scheduler_lock_started_at {
            Some(started) => if scheduling::elapsed_ms(now, started) >= limit {
                Some(
                    ContractViolation::SchedulerLockOverrun {
                        task_slot: self.current,
                        held_ms: scheduling::elapsed_ms(now, started),
                        limit_ms: limit,
                    },
                )
            } else {
                None
            },
            None => None,
        }
    }

    /// The scheduler timer fires at `now`.
    pub open spec fn timer_fired(self, now: u64, limit: u32) -> (
        SchedModel,
        Option<ContractViolation>,
    ) {
        let woken = self.all_woken(now);
        if woken.task(woken.current).state != State::Running {
            (woken, None)
        } else {
            let m = woken.charged(now);
            let violation = m.lock_violation(now, limit);
            if violation is Some {
                (
                    m.with_diagnostics(
                        Diagnostics {
                            scheduler_lock_overruns: metrics::bumped(
                                m.diagnostics.scheduler_lock_overruns,
                            ),
                            ..m.diagnostics
                        },
                    ),
                    violation,
                )
            } else {
                (m, None)
            }
        }
    }

    /// `previous` stops running and `next` starts at `now`.
    pub open spec fn accounted(self, previous: usize, next: usize, now: u64) -> SchedModel {
        let p = self.task(previous);
        let m = self.with_task(
            previous,
            Tcb {
                budget: p.budget.switched_out(now),
                metrics: p.metrics.switched_out(now),
                ..p
            },
        );
        let t = m.task(next);
        SchedModel {
            time_slice_deadline: 0,
            ..m.with_task(
                next,
                Tcb { budget: t.budget.dispatched(now), metrics: t.metrics.dispatched(now), ..t },
            )
        }
    }

    pub open spec fn irq_entered(self, now: u64) -> SchedModel {
        let t = self.task(self.current);
        self.with_task(self.current, Tcb { metrics: t.metrics.irq_entered(now), ..t })
    }

    pub open spec fn irq_left(self, now: u64) -> SchedModel {
        let t = self.task(self.current);
        self.with_task(self.current, Tcb { metrics: t.metrics.irq_left(now), ..t })
    }

    pub(crate) proof fn lemma_charged(self, now: u64)
        requires
            self.coherent(),
            self.task(self.current).state == State::Running,
        ensures
            self.charged(now).coherent(),
            self.tidy() ==> self.charged(now).tidy(),
    {
        let cur = self.current;
        let n = self.charged(now);
        self.lemma_unqueued_when_idle_state(cur);
        assert(self.tasks[cur as int].base_priority < 32);
        self.lemma_tweak_coherent(cur, n.task(cur));
        let m = self.with_task(cur, n.task(cur));
        assert(n.tasks =~= m.tasks);
        m.lemma_coherent_frame(n);
        self.lemma_tidy_frame(n);
    }

    pub(crate) proof fn lemma_timer_fired(self, now: u64, limit: u32)
        requires
            self.coherent(),
        ensures
            self.timer_fired(now, limit).0.coherent(),
            self.tidy() ==> self.timer_fired(now, limit).0.tidy(),
    {
        self.lemma_all_woken(now);
        let woken = self.all_woken(now);
        let n = self.timer_fired(now, limit).0;
        if woken.task(woken.current).state == State::Running {
            woken.lemma_charged(now);
            woken.charged(now).lemma_coherent_frame(n);
            woken.charged(now).lemma_tidy_frame(n);
        }
    }

    pub(crate) proof fn lemma_accounted(self, previous: usize, next: usize, now: u64)
        requires
            self.coherent(),
            previous < TASK_SLOT_COUNT,
            next < TASK_SLOT_COUNT,
        ensures
            self.accounted(previous, next, now).coherent(),
            self.tidy() ==> self.accounted(previous, next, now).tidy(),
            forall|x: usize| #[trigger] self.loose(x) ==> self.accounted(previous, next, now).loose(
                x,
            ),
    {
        let p = self.task(previous);
        let p2 = Tcb {
            budget: p.budget.switched_out(now),
            metrics: p.metrics.switched_out(now),
            ..p
        };
        assert(self.tasks[previous as int].base_priority < 32);
        assert(self.tasks[next as int].base_priority < 32);
        self.lemma_ready_queued_is_ready(previous);
        self.lemma_tweak_coherent(previous, p2);
        let m = self.with_task(previous, p2);
        let t = m.task(next);
        let t2 = Tcb { budget: t.budget.dispatched(now), metrics: t.metrics.dispatched(now), ..t };
        m.lemma_ready_queued_is_ready(next);
        m.lemma_tweak_coherent(next, t2);
        let n = self.accounted(previous, next, now);
        m.with_task(next, t2).lemma_coherent_frame(n);
        self.lemma_tidy_frame(n);
    }
}

/// The least of two optional deadlines.
pub open spec fn earlier(a: Option<u64>, b: Option<u64>) -> Option<u64> {
    match (a, b) {
        (Some(x), Some(y)) => if x <= y {
            a
        } else {
            b
        },
        (Some(x), None) => a,
        _ => b,
    }
}

fn earlier_of(a: Option<u64>, b: Option<u64>) -> (r: Option<u64>)
    ensures
        r == earlier(a, b),
{
    match a {
        Some(x) => match b {
            Some(y) => {
                if x <= y {
                    a
                } else {
                    b
                }
            },
            None => a,
        },
        None => b,
    }
}

/// The deadline of one slot for the scheduler timer: a sleep or a timed wait.
pub open spec fn wake_deadline(task: Tcb) -> Option<u64> {
    if (task.state == State::Sleeping || task.state == State::Blocked) && task.wake_at != 0 {
        Some(task.wake_at)
    } else {
        None
    }
}

/// The deadline at which one throttled slot is replenished.
pub open spec fn replenish_deadline(task: Tcb) -> Option<u64> {
    if task.state == State::Throttled && task.budget.replenishes_at != 0 {
        Some(task.budget.replenishes_at)
    } else {
        None
    }
}

impl Sched {
    /// Charges the running task, wakes whoever is due and checks the lock limit.
    #[verifier::spinoff_prover]
    #[verifier::rlimit(50)]
    pub fn on_timer(&mut self, now: u64, max_scheduler_lock_duration: NonZeroU32) -> (r: Option<
        ContractViolation,
    >)
        requires
            old(self).wf(),
            old(self)@.coherent(),
        ensures
            final(self).wf(),
            final(self)@.coherent(),
            (final(self)@, r) == old(self)@.timer_fired(now, max_scheduler_lock_duration@),
    {
        proof {
            self@.lemma_timer_fired(now, max_scheduler_lock_duration@);
            self@.lemma_all_woken(now);
        }
        self.wake_sleepers(now);
        let ghost m0 = self@;
        let current: usize = self.current;
        proof {
            assert(m0.tasks[current as int] == self.tasks@[current as int].unlinked());
            assert(m0.tasks[current as int].base_priority < 32);
        }
        if self.tasks[current].state != State::Running {
            return None;
        }
        proof {
            m0.lemma_charged(now);
        }
        let mut block = self.tasks[current];
        let locked = block.scheduler_lock_depth != 0;
        match block.budget.on_timer(now, locked) {
            BudgetExpiry::ThrottleNow => {
                block.state = State::Throttled;
                block.metrics.on_budget_exhausted();
                self.diagnostics.budget_exhaustions = bump(self.diagnostics.budget_exhaustions);
                self.diagnostics.budget_throttles = bump(self.diagnostics.budget_throttles);
            },
            BudgetExpiry::DeferredBySchedulerLock => {
                block.metrics.on_budget_exhausted();
                self.diagnostics.budget_exhaustions = bump(self.diagnostics.budget_exhaustions);
                self.diagnostics.budget_lock_overruns = bump(self.diagnostics.budget_lock_overruns);
            },
            _ => {},
        }
        self.set_task(current, block);
        assert(self@ =~= m0.charged(now));
        let limit: u32 = max_scheduler_lock_duration.get();
        let ghost m1 = self@;
        assert(m1.task(current) == block.unlinked());
        match block.scheduler_lock_started_at {
            Some(started_at) => {
                let held_ms: u64 = now.saturating_sub(started_at);
                if held_ms >= limit as u64 {
                    self.diagnostics.scheduler_lock_overruns = bump(
                        self.diagnostics.scheduler_lock_overruns,
                    );
                    return Some(
                        ContractViolation::SchedulerLockOverrun {
                            task_slot: current,
                            held_ms,
                            limit_ms: limit,
                        },
                    );
                }
            },
            None => {},
        }
        None
    }

    /// Charges `previous` for its run and starts charging `next`.
    pub fn account_switch(&mut self, previous: usize, next: usize, now: u64)
        requires
            old(self).wf(),
            previous < TASK_SLOT_COUNT,
            next < TASK_SLOT_COUNT,
        ensures
            final(self).wf(),
            final(self)@ == old(self)@.accounted(previous, next, now),
    {
        let ghost m0 = self@;
        assert(m0.tasks[previous as int] == self.tasks@[previous as int].unlinked());
        let mut out = self.tasks[previous];
        out.budget.on_switch_out(now);
        out.metrics.on_switch_out(now);
        proof {
            assert(m0.tasks[previous as int].priority < 32);
            m0.lemma_fits_with_task(previous, out.unlinked());
        }
        self.set_task(previous, out);
        let ghost m1 = self@;
        assert(m1.tasks[next as int] == self.tasks@[next as int].unlinked());
        let mut incoming = self.tasks[next];
        incoming.budget.on_dispatch(now);
        incoming.metrics.on_dispatch(now);
        proof {
            assert(m1.tasks[next as int].priority < 32);
            m1.lemma_fits_with_task(next, incoming.unlinked());
        }
        self.set_task(next, incoming);
        self.time_slice_deadline = 0;
        assert(self@ =~= m0.accounted(previous, next, now));
    }

    /// An outermost interrupt starts while the current task is the context.
    pub fn interrupt_enter(&mut self, now: u64)
        requires
            old(self).wf(),
            old(self)@.coherent(),
        ensures
            final(self).wf(),
            final(self)@.coherent(),
            final(self)@ == old(self)@.irq_entered(now),
    {
        let ghost m0 = self@;
        let current: usize = self.current;
        let mut block = self.tasks[current];
        block.metrics.on_irq_enter(now);
        proof {
            assert(m0.tasks[current as int] == self.tasks@[current as int].unlinked());
            assert(m0.tasks[current as int].base_priority < 32);
            m0.lemma_ready_queued_is_ready(current);
            m0.lemma_tweak_coherent(current, block.unlinked());
        }
        self.set_task(current, block);
    }

    /// An outermost interrupt ends while the current task is the context.
    pub fn interrupt_exit(&mut self, now: u64)
        requires
            old(self).wf(),
            old(self)@.coherent(),
        ensures
            final(self).wf(),
            final(self)@.coherent(),
            final(self)@ == old(self)@.irq_left(now),
    {
        let ghost m0 = self@;
        let current: usize = self.current;
        let mut block = self.tasks[current];
        block.metrics.on_irq_exit(now);
        proof {
            assert(m0.tasks[current as int] == self.tasks@[current as int].unlinked());
            assert(m0.tasks[current as int].base_priority < 32);
            m0.lemma_ready_queued_is_ready(current);
            m0.lemma_tweak_coherent(current, block.unlinked());
        }
        self.set_task(current, block);
    }

    /// The earliest end of a sleep or a timed wait.
    pub fn earliest_wake_deadline(&self) -> (r: Option<u64>)
        ensures
            r == earliest(self@.wake_deadlines()),
    {
        let mut best: Option<u64> = None;
        let ghost ds = self@.wake_deadlines();
        let mut i: usize = 0;
        while i < TASK_SLOT_COUNT
            invariant
                i <= TASK_SLOT_COUNT,
                ds == self@.wake_deadlines(),
                best == earliest(ds.take(i as int)),
            decreases TASK_SLOT_COUNT - i,
        {
            let task = self.tasks[i];
            assert(self@.tasks[i as int] == self.tasks@[i as int].unlinked());
            let deadline: Option<u64> = if (task.state == State::Sleeping || task.state
                == State::Blocked) && task.wake_at != 0 {
                Some(task.wake_at)
            } else {
                None
            };
            proof {
                lemma_earliest_step(ds, i as int);
            }
            best = earlier_of(best, deadline);
            i = i + 1;
        }
        assert(ds.take(17) =~= ds);
        best
    }

    /// The earliest replenishment of a throttled task.
    fn earliest_replenish_deadline(&self) -> (r: Option<u64>)
        ensures
            r == earliest(self@.replenish_deadlines()),
    {
        let mut best: Option<u64> = None;
        let ghost ds = self@.replenish_deadlines();
        let mut i: usize = 0;
        while i < TASK_SLOT_COUNT
            invariant
                i <= TASK_SLOT_COUNT,
                ds == self@.replenish_deadlines(),
                best == earliest(ds.take(i as int)),
            decreases TASK_SLOT_COUNT - i,
        {
            let task = self.tasks[i];
            assert(self@.tasks[i as int] == self.tasks@[i as int].unlinked());
            let deadline: Option<u64> = if task.state == State::Throttled
                && task.budget.replenishes_at() != 0 {
                Some(task.budget.replenishes_at())
            } else {
                None
            };
            proof {
                lemma_earliest_step(ds, i as int);
            }
            best = earlier_of(best, deadline);
            i = i + 1;
        }
        assert(ds.take(17) =~= ds);
        best
    }

    /// The earliest exhaustion of the running quota or replenishment of another.
    pub fn earliest_budget_deadline(&self) -> (r: Option<u64>)
        requires
            self.wf(),
        ensures
            r == earlier(self@.exhaustion(), earliest(self@.replenish_deadlines())),
    {
        let current: usize = self.current;
        assert(self@.tasks[current as int] == self.tasks@[current as int].unlinked());
        let exhaustion: Option<u64> = if self.tasks[current].state == State::Running {
            self.tasks[current].budget.exhaustion_deadline()
        } else {
            None
        };
        let replenish: Option<u64> = self.earliest_replenish_deadline();
        earlier_of(exhaustion, replenish)
    }

    /// When the scheduler lock of the running task reaches its limit.
    pub fn scheduler_lock_deadline(&self, max_duration: NonZeroU32) -> (r: Option<u64>)
        requires
            self.wf(),
        ensures
            r == self@.lock_deadline(max_duration@),
    {
        let current: usize = self.current;
        assert(self@.tasks[current as int] == self.tasks@[current as int].unlinked());
        let task = self.tasks[current];
        if task.state == State::Running && task.scheduler_lock_depth != 0 {
            match task.scheduler_lock_started_at {
                Some(started_at) => Some(started_at.saturating_add(max_duration.get() as u64)),
                None => None,
            }
        } else {
            None
        }
    }

    /// Whether another task of this priority is ready.
    pub fn has_equal_priority_ready(&self, priority: u8) -> (r: bool)
        requires
            self.wf(),
            priority < 32,
        ensures
            r == (self@.queues[priority as int].len() > 0),
    {
        self.level_occupied(priority as usize)
    }

    /// Whether any task is ready.
    pub fn has_ready_task(&self) -> (r: bool)
        requires
            self.wf(),
        ensures
            r == (self@.first_ready() is Some),
    {
        let mut level: usize = 0;
        while level < PRIORITY_LEVELS
            invariant
                self.wf(),
                level <= 32,
                forall|p: int| 0 <= p < level ==> (#[trigger] self@.queues[p]).len() == 0,
            decreases 32 - level,
        {
            if self.level_occupied(level) {
                proof {
                    self@.lemma_first_ready(0);
                }
                return true;
            }
            level = level + 1;
        }
        proof {
            self@.lemma_first_ready(0);
        }
        false
    }

    /// When the time slice of the current task ends, if another task competes.
    ///
    /// A running slice keeps its deadline when the timer is rearmed for another
    /// reason.
    pub fn next_time_slice_deadline(&mut self, now: u64) -> (r: Option<u64>)
        requires
            old(self).wf(),
        ensures
            final(self).wf(),
            (final(self)@, r) == old(self)@.time_sliced(now),
    {
        let ghost m0 = self@;
        let current: usize = self.current;
        assert(m0.tasks[current as int] == self.tasks@[current as int].unlinked());
        assert(m0.tasks[current as int].priority < 32);
        let slice: Option<NonZeroU32> = match self.policy {
            Some(_) => {
                if self.has_ready_task() {
                    self.time_slice
                } else {
                    None
                }
            },
            None => match self.tasks[current].run_policy {
                RunPolicy::Preemptive { time_slice } => {
                    if self.has_equal_priority_ready(self.tasks[current].priority) {
                        Some(time_slice)
                    } else {
                        None
                    }
                },
                _ => None,
            },
        };
        match slice {
            Some(slice) => {
                if self.time_slice_deadline == 0 {
                    self.time_slice_deadline = now.saturating_add(slice.get() as u64);
                }
                Some(self.time_slice_deadline)
            },
            None => {
                self.time_slice_deadline = 0;
                None
            },
        }
    }
}

impl SchedModel {
    /// The wake deadlines of all slots.
    pub open spec fn wake_deadlines(self) -> Seq<Option<u64>> {
        Seq::new(17, |i: int| wake_deadline(self.tasks[i]))
    }

    /// The replenishment deadlines of all slots.
    pub open spec fn replenish_deadlines(self) -> Seq<Option<u64>> {
        Seq::new(17, |i: int| replenish_deadline(self.tasks[i]))
    }

    /// When the running task's quota is used up.
    pub open spec fn exhaustion(self) -> Option<u64> {
        let t = self.task(self.current);
        match t.budget.running_since {
            Some(started) => if t.state == State::Running && t.budget.remaining != 0 {
                Some(scheduling::clock_add(started as int, t.budget.remaining as int))
            } else {
                None
            },
            None => None,
        }
    }

    pub open spec fn lock_deadline(self, limit: u32) -> Option<u64> {
        let t = self.task(self.current);
        match t.scheduler_lock_started_at {
            Some(started) => if t.state == State::Running && t.scheduler_lock_depth != 0 {
                Some(scheduling::clock_add(started as int, limit as int))
            } else {
                None
            },
            None => None,
        }
    }

    /// The slice that bounds the current run: that of the task's own preemptive
    /// policy while an equal is ready, or the firmware-wide one while anyone is.
    pub open spec fn slice(self) -> Option<u32> {
        let t = self.task(self.current);
        match self.policy {
            Some(_) => match self.time_slice {
                Some(slice) => if self.first_ready() is Some {
                    Some(slice@)
                } else {
                    None
                },
                None => None,
            },
            None => match t.run_policy {
                RunPolicy::Preemptive { time_slice } => if self.queues[t.priority as int].len()
                    > 0 {
                    Some(time_slice@)
                } else {
                    None
                },
                _ => None,
            },
        }
    }

    pub open spec fn time_sliced(self, now: u64) -> (SchedModel, Option<u64>) {
        match self.slice() {
            Some(slice) => {
                let deadline = if self.time_slice_deadline == 0 {
                    scheduling::clock_add(now as int, slice as int)
                } else {
                    self.time_slice_deadline
                };
                (SchedModel { time_slice_deadline: deadline, ..self }, Some(deadline))
            },
            None => (SchedModel { time_slice_deadline: 0, ..self }, None),
        }
    }
}

proof fn lemma_earliest_step(deadlines: Seq<Option<u64>>, i: int)
    requires
        0 <= i < deadlines.len(),
    ensures
        earliest(deadlines.take(i + 1)) == earlier(earliest(deadlines.take(i)), deadlines[i]),
{
    assert(deadlines.take(i + 1).drop_last() =~= deadlines.take(i));
}

/// The earliest of all deadlines that share the scheduler timer.
pub fn earliest_deadline(
    wake_deadline: Option<u64>,
    slice_deadline: Option<u64>,
    budget_deadline: Option<u64>,
    scheduler_lock_deadline: Option<u64>,
    embassy_deadline: Option<u64>,
) -> (r: Option<u64>)
    ensures
        r == earliest(
            seq![
                wake_deadline,
                slice_deadline,
                budget_deadline,
                scheduler_lock_deadline,
                embassy_deadline,
            ],
        ),
{
    proof {
        let s = seq![
            wake_deadline,
            slice_deadline,
            budget_deadline,
            scheduler_lock_deadline,
            embassy_deadline,
        ];
        assert(s.drop_last() =~= seq![
            wake_deadline,
            slice_deadline,
            budget_deadline,
            scheduler_lock_deadline,
        ]);
        assert(s.drop_last().drop_last() =~= seq![wake_deadline, slice_deadline, budget_deadline]);
        assert(s.drop_last().drop_last().drop_last() =~= seq![wake_deadline, slice_deadline]);
        assert(s.drop_last().drop_last().drop_last().drop_last() =~= seq![wake_deadline]);
        reveal_with_fuel(earliest, 6);
    }
    earlier_of(
        earlier_of(
            earlier_of(earlier_of(wake_deadline, slice_deadline), budget_deadline),
            scheduler_lock_deadline,
        ),
        embassy_deadline,
    )
}

/// The least deadline of a sequence, if it holds one.
pub open spec fn earliest(deadlines: Seq<Option<u64>>) -> Option<u64>
    decreases deadlines.len(),
{
    if deadlines.len() == 0 {
        None
    } else {
        earlier(earliest(deadlines.drop_last()), deadlines.last())
    }
}

/// The shared deadline is one of the deadlines, and none is earlier.
pub proof fn law_earliest_deadline_is_least(deadlines: Seq<Option<u64>>)
    ensures
        earliest(deadlines) is Some ==> deadlines.contains(earliest(deadlines)),
        forall|i: int|
            0 <= i < deadlines.len() && (#[trigger] deadlines[i]) is Some ==> earliest(
                deadlines,
            ) is Some && earliest(deadlines)->0 <= deadlines[i]->0,
    decreases deadlines.len(),
{
    if deadlines.len() > 0 {
        let front = deadlines.drop_last();
        law_earliest_deadline_is_least(front);
        assert(deadlines[deadlines.len() - 1] == deadlines.last());
        if earliest(deadlines) is Some && earliest(deadlines) != deadlines.last() {
            let i = front.index_of(earliest(deadlines));
            assert(front.contains(earliest(deadlines)));
            assert(deadlines[i] == front[i]);
        }
        assert forall|i: int|
            0 <= i < deadlines.len() && (#[trigger] deadlines[i]) is Some implies earliest(
            deadlines,
        ) is Some && earliest(deadlines)->0 <= deadlines[i]->0 by {
            if i < front.len() {
                assert(front[i] == deadlines[i]);
            }
        }
    }
}

} // verus!
