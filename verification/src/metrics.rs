//! Saturating per-task execution metrics.
use vstd::prelude::*;

verus! {

/// `value + 1`, held at the largest value.
pub open spec fn bumped(value: u32) -> u32 {
    if value == u32::MAX {
        value
    } else {
        (value + 1) as u32
    }
}

/// Increments an event counter without ever wrapping.
pub fn bump(value: u32) -> (r: u32)
    ensures
        r == bumped(value),
{
    value.saturating_add(1)
}

/// `total + span`, held at the largest value.
pub open spec fn accumulated(total: u64, span: u64) -> u64 {
    crate::scheduling::clock_add(total as int, span as int)
}

/// The larger of two spans.
pub open spec fn longest(a: u64, b: u64) -> u64 {
    if a >= b {
        a
    } else {
        b
    }
}

/// The span that started at `since` and is still open at `now`, if there is one.
pub open spec fn open_span(since: Option<u64>, now: u64) -> u64 {
    match since {
        Some(started) => crate::scheduling::elapsed_ms(now, started),
        None => 0,
    }
}

fn longer(a: u64, b: u64) -> (r: u64)
    ensures
        r == longest(a, b),
{
    if a >= b {
        a
    } else {
        b
    }
}

fn span_until(since: Option<u64>, now: u64) -> (r: u64)
    ensures
        r == open_span(since, now),
{
    match since {
        Some(started) => now.saturating_sub(started),
        None => 0,
    }
}

/// Execution metrics of one task.
///
/// Every total and counter saturates. CPU time includes the interrupt time that
/// was spent while the task was the interrupted context.
#[derive(Clone, Copy, Debug, Eq, PartialEq, Structural)]
pub struct TaskMetrics {
    pub cpu_time_ms: u64,
    pub irq_time_ms: u64,
    pub dispatches: u32,
    pub budget_exhaustions: u32,
    pub max_continuous_run_ms: u64,
    pub max_ready_latency_ms: u64,
    pub scheduler_lock_entries: u32,
    pub max_scheduler_lock_ms: u64,
    pub irq_entries: u32,
    pub max_irq_span_ms: u64,
    pub running_since: Option<u64>,
    pub ready_since: Option<u64>,
    pub irq_since: Option<u64>,
}

impl TaskMetrics {
    /// Metrics of a task that has never run.
    pub open spec fn zero() -> TaskMetrics {
        TaskMetrics {
            cpu_time_ms: 0,
            irq_time_ms: 0,
            dispatches: 0,
            budget_exhaustions: 0,
            max_continuous_run_ms: 0,
            max_ready_latency_ms: 0,
            scheduler_lock_entries: 0,
            max_scheduler_lock_ms: 0,
            irq_entries: 0,
            max_irq_span_ms: 0,
            running_since: None,
            ready_since: None,
            irq_since: None,
        }
    }

    /// The metrics after the task becomes ready at `now`.
    pub open spec fn made_ready(self, now: u64) -> TaskMetrics {
        TaskMetrics { ready_since: Some(now), ..self }
    }

    /// The metrics after the task starts running at `now`.
    pub open spec fn dispatched(self, now: u64) -> TaskMetrics {
        TaskMetrics {
            dispatches: bumped(self.dispatches),
            max_ready_latency_ms: longest(
                self.max_ready_latency_ms,
                open_span(self.ready_since, now),
            ),
            ready_since: None,
            running_since: Some(now),
            ..self
        }
    }

    /// The metrics after the task stops running at `now`.
    pub open spec fn switched_out(self, now: u64) -> TaskMetrics {
        TaskMetrics {
            cpu_time_ms: accumulated(self.cpu_time_ms, open_span(self.running_since, now)),
            max_continuous_run_ms: longest(
                self.max_continuous_run_ms,
                open_span(self.running_since, now),
            ),
            running_since: None,
            ..self
        }
    }

    /// The metrics after an outermost scheduler lock.
    pub open spec fn lock_entered(self) -> TaskMetrics {
        TaskMetrics { scheduler_lock_entries: bumped(self.scheduler_lock_entries), ..self }
    }

    /// The metrics after an outermost scheduler unlock that ends `held` ms.
    pub open spec fn lock_left(self, held: u64) -> TaskMetrics {
        TaskMetrics { max_scheduler_lock_ms: longest(self.max_scheduler_lock_ms, held), ..self }
    }

    /// The metrics after an outermost interrupt entry at `now`.
    pub open spec fn irq_entered(self, now: u64) -> TaskMetrics {
        TaskMetrics { irq_entries: bumped(self.irq_entries), irq_since: Some(now), ..self }
    }

    /// The metrics after an outermost interrupt exit at `now`.
    pub open spec fn irq_left(self, now: u64) -> TaskMetrics {
        TaskMetrics {
            irq_time_ms: accumulated(self.irq_time_ms, open_span(self.irq_since, now)),
            max_irq_span_ms: longest(self.max_irq_span_ms, open_span(self.irq_since, now)),
            irq_since: None,
            ..self
        }
    }

    /// The metrics after one more quota exhaustion.
    pub open spec fn exhausted(self) -> TaskMetrics {
        TaskMetrics { budget_exhaustions: bumped(self.budget_exhaustions), ..self }
    }

    /// What a snapshot at `now` shows: the metrics with every open interval
    /// included, and with the outermost scheduler lock that has been held since
    /// `lock_since`.
    pub open spec fn snapshot_at(self, lock_since: Option<u64>, now: u64) -> TaskMetrics {
        TaskMetrics {
            cpu_time_ms: accumulated(self.cpu_time_ms, open_span(self.running_since, now)),
            max_continuous_run_ms: longest(
                self.max_continuous_run_ms,
                open_span(self.running_since, now),
            ),
            irq_time_ms: accumulated(self.irq_time_ms, open_span(self.irq_since, now)),
            max_irq_span_ms: longest(self.max_irq_span_ms, open_span(self.irq_since, now)),
            max_scheduler_lock_ms: longest(self.max_scheduler_lock_ms, open_span(lock_since, now)),
            ..self
        }
    }

    pub fn new() -> (r: Self)
        ensures
            r == TaskMetrics::zero(),
    {
        TaskMetrics {
            cpu_time_ms: 0,
            irq_time_ms: 0,
            dispatches: 0,
            budget_exhaustions: 0,
            max_continuous_run_ms: 0,
            max_ready_latency_ms: 0,
            scheduler_lock_entries: 0,
            max_scheduler_lock_ms: 0,
            irq_entries: 0,
            max_irq_span_ms: 0,
            running_since: None,
            ready_since: None,
            irq_since: None,
        }
    }

    pub fn on_ready(&mut self, now: u64)
        ensures
            *final(self) == old(self).made_ready(now),
    {
        self.ready_since = Some(now);
    }

    pub fn on_dispatch(&mut self, now: u64)
        ensures
            *final(self) == old(self).dispatched(now),
    {
        self.dispatches = bump(self.dispatches);
        let waited: u64 = span_until(self.ready_since, now);
        self.max_ready_latency_ms = longer(self.max_ready_latency_ms, waited);
        self.ready_since = None;
        self.running_since = Some(now);
    }

    pub fn on_switch_out(&mut self, now: u64)
        ensures
            *final(self) == old(self).switched_out(now),
    {
        let ran: u64 = span_until(self.running_since, now);
        self.cpu_time_ms = self.cpu_time_ms.saturating_add(ran);
        self.max_continuous_run_ms = longer(self.max_continuous_run_ms, ran);
        self.running_since = None;
    }

    pub fn on_lock(&mut self)
        ensures
            *final(self) == old(self).lock_entered(),
    {
        self.scheduler_lock_entries = bump(self.scheduler_lock_entries);
    }

    pub fn on_unlock(&mut self, held: u64)
        ensures
            *final(self) == old(self).lock_left(held),
    {
        self.max_scheduler_lock_ms = longer(self.max_scheduler_lock_ms, held);
    }

    pub fn on_irq_enter(&mut self, now: u64)
        ensures
            *final(self) == old(self).irq_entered(now),
    {
        self.irq_entries = bump(self.irq_entries);
        self.irq_since = Some(now);
    }

    pub fn on_irq_exit(&mut self, now: u64)
        ensures
            *final(self) == old(self).irq_left(now),
    {
        let span: u64 = span_until(self.irq_since, now);
        self.irq_time_ms = self.irq_time_ms.saturating_add(span);
        self.max_irq_span_ms = longer(self.max_irq_span_ms, span);
        self.irq_since = None;
    }

    pub fn on_budget_exhausted(&mut self)
        ensures
            *final(self) == old(self).exhausted(),
    {
        self.budget_exhaustions = bump(self.budget_exhaustions);
    }

    pub fn snapshot(&self, lock_since: Option<u64>, now: u64) -> (r: TaskMetrics)
        ensures
            r == self.snapshot_at(lock_since, now),
    {
        let ran: u64 = span_until(self.running_since, now);
        let span: u64 = span_until(self.irq_since, now);
        let held: u64 = span_until(lock_since, now);
        TaskMetrics {
            cpu_time_ms: self.cpu_time_ms.saturating_add(ran),
            irq_time_ms: self.irq_time_ms.saturating_add(span),
            dispatches: self.dispatches,
            budget_exhaustions: self.budget_exhaustions,
            max_continuous_run_ms: longer(self.max_continuous_run_ms, ran),
            max_ready_latency_ms: self.max_ready_latency_ms,
            scheduler_lock_entries: self.scheduler_lock_entries,
            max_scheduler_lock_ms: longer(self.max_scheduler_lock_ms, held),
            irq_entries: self.irq_entries,
            max_irq_span_ms: longer(self.max_irq_span_ms, span),
            running_since: self.running_since,
            ready_since: self.ready_since,
            irq_since: self.irq_since,
        }
    }
}

/// A snapshot shows exactly what the totals would be if every open interval
/// ended at that moment, so it neither hides nor invents running time.
pub proof fn law_snapshot_includes_open_intervals(metrics: TaskMetrics, now: u64)
    ensures
        metrics.snapshot_at(None, now).cpu_time_ms == metrics.switched_out(now).cpu_time_ms,
        metrics.snapshot_at(None, now).max_continuous_run_ms == metrics.switched_out(
            now,
        ).max_continuous_run_ms,
        metrics.snapshot_at(None, now).irq_time_ms == metrics.irq_left(now).irq_time_ms,
        metrics.snapshot_at(None, now).max_irq_span_ms == metrics.irq_left(now).max_irq_span_ms,
{
}

/// No event takes recorded evidence away: totals, counters and maxima only grow.
pub proof fn law_metrics_never_decrease(metrics: TaskMetrics, now: u64, held: u64)
    ensures
        metrics.switched_out(now).cpu_time_ms >= metrics.cpu_time_ms,
        metrics.switched_out(now).max_continuous_run_ms >= metrics.max_continuous_run_ms,
        metrics.dispatched(now).dispatches >= metrics.dispatches,
        metrics.dispatched(now).max_ready_latency_ms >= metrics.max_ready_latency_ms,
        metrics.lock_entered().scheduler_lock_entries >= metrics.scheduler_lock_entries,
        metrics.lock_left(held).max_scheduler_lock_ms >= metrics.max_scheduler_lock_ms,
        metrics.irq_entered(now).irq_entries >= metrics.irq_entries,
        metrics.irq_left(now).irq_time_ms >= metrics.irq_time_ms,
        metrics.irq_left(now).max_irq_span_ms >= metrics.max_irq_span_ms,
        metrics.exhausted().budget_exhaustions >= metrics.budget_exhaustions,
{
}

} // verus!
