//! Read-only snapshots of the scheduler.
use vstd::prelude::*;
use crate::config::{
    Diagnostics, TaskDiagnostic, TaskState, DYNAMIC_TASK_CAPACITY, TASK_SLOT_COUNT,
};
use crate::donation;
use crate::model::SchedModel;
use crate::scheduler::Sched;
use crate::task::{State, Tcb};

verus! {

/// `base` counted on by `n`, without wrapping.
pub open spec fn counted(base: u8, n: nat) -> u8 {
    if base + n > u8::MAX {
        u8::MAX
    } else {
        (base + n) as u8
    }
}

/// The public name of a task state.
pub open spec fn shown(state: State) -> TaskState {
    match state {
        State::Free => TaskState::Free,
        State::Ready => TaskState::Ready,
        State::Running => TaskState::Running,
        State::Blocked => TaskState::Blocked,
        State::Sleeping => TaskState::Sleeping,
        State::Throttled => TaskState::Throttled,
    }
}

fn show(state: State) -> (r: TaskState)
    ensures
        r == shown(state),
{
    match state {
        State::Free => TaskState::Free,
        State::Ready => TaskState::Ready,
        State::Running => TaskState::Running,
        State::Blocked => TaskState::Blocked,
        State::Sleeping => TaskState::Sleeping,
        State::Throttled => TaskState::Throttled,
    }
}

impl SchedModel {
    /// The number of tasks in `state`.
    pub open spec fn census(self, state: State) -> nat {
        donation::count(|slot: usize| self.task(slot).state == state, 17)
    }

    /// The counters with the present census, for `capacity` dynamic slots.
    pub open spec fn snapshot(self, capacity: u8) -> Diagnostics {
        let d = self.diagnostics;
        Diagnostics {
            current_task: self.current,
            current_lock_depth: self.task(self.current).scheduler_lock_depth,
            ready_tasks: counted(d.ready_tasks, self.census(State::Ready)),
            blocked_tasks: counted(d.blocked_tasks, self.census(State::Blocked)),
            sleeping_tasks: counted(d.sleeping_tasks, self.census(State::Sleeping)),
            throttled_tasks: counted(d.throttled_tasks, self.census(State::Throttled)),
            dynamic_capacity: capacity,
            dynamic_used: counted(0, self.dynamic_used()),
            dynamic_reserved: counted(0, self.reservations.total_remaining as nat),
            dynamic_free: self.dynamic_available(capacity as usize) as u8,
            ..d
        }
    }

    /// What a snapshot at `now` shows of one slot.
    pub open spec fn slot_snapshot(self, slot: usize, now: u64) -> TaskDiagnostic {
        let t = self.task(slot);
        let m = t.metrics.snapshot_at(t.scheduler_lock_started_at, now);
        TaskDiagnostic {
            task: slot,
            generation: t.identity_generation,
            state: shown(t.state),
            entry: match t.entry {
                Some(entry) => entry,
                None => 0,
            },
            stack_size: t.stack_size,
            waiting_sem: t.waiting_sem,
            waiting_mutex: t.waiting_mutex,
            wake_at: t.wake_at,
            base_priority: t.base_priority,
            priority: t.priority,
            scheduler_lock_depth: t.scheduler_lock_depth,
            run_policy: t.run_policy,
            budget_remaining: t.budget.remaining,
            budget_replenishes_at: t.budget.replenishes_at,
            cpu_time_ms: m.cpu_time_ms,
            irq_time_ms: m.irq_time_ms,
            dispatches: m.dispatches,
            budget_exhaustions: m.budget_exhaustions,
            max_continuous_run_ms: m.max_continuous_run_ms,
            max_ready_latency_ms: m.max_ready_latency_ms,
            scheduler_lock_entries: m.scheduler_lock_entries,
            max_scheduler_lock_ms: m.max_scheduler_lock_ms,
            irq_entries: m.irq_entries,
            max_irq_span_ms: m.max_irq_span_ms,
        }
    }
}

fn describe(slot: usize, task: &Tcb, now: u64) -> (r: TaskDiagnostic)
    ensures
        forall|m: SchedModel|
            m.task(slot) == task.unlinked() ==> r == #[trigger] m.slot_snapshot(slot, now),
{
    let metrics = task.metrics.snapshot(task.scheduler_lock_started_at, now);
    TaskDiagnostic {
        task: slot,
        generation: task.identity_generation,
        state: show(task.state),
        entry: match task.entry {
            Some(entry) => entry,
            None => 0,
        },
        stack_size: task.stack_size,
        waiting_sem: task.waiting_sem,
        waiting_mutex: task.waiting_mutex,
        wake_at: task.wake_at,
        base_priority: task.base_priority,
        priority: task.priority,
        scheduler_lock_depth: task.scheduler_lock_depth,
        run_policy: task.run_policy,
        budget_remaining: task.budget.remaining(),
        budget_replenishes_at: task.budget.replenishes_at(),
        cpu_time_ms: metrics.cpu_time_ms,
        irq_time_ms: metrics.irq_time_ms,
        dispatches: metrics.dispatches,
        budget_exhaustions: metrics.budget_exhaustions,
        max_continuous_run_ms: metrics.max_continuous_run_ms,
        max_ready_latency_ms: metrics.max_ready_latency_ms,
        scheduler_lock_entries: metrics.scheduler_lock_entries,
        max_scheduler_lock_ms: metrics.max_scheduler_lock_ms,
        irq_entries: metrics.irq_entries,
        max_irq_span_ms: metrics.max_irq_span_ms,
    }
}

fn count_on(base: u8, n: usize) -> (r: u8)
    requires
        base + n <= usize::MAX,
    ensures
        r == counted(base, n as nat),
{
    let sum: usize = base as usize + n;
    if sum > u8::MAX as usize {
        u8::MAX
    } else {
        sum as u8
    }
}

impl Sched {
    fn count_state(&self, state: State) -> (r: usize)
        requires
            self.wf(),
        ensures
            r == self@.census(state),
            r <= TASK_SLOT_COUNT,
    {
        let ghost holds = |slot: usize| self@.task(slot).state == state;
        let mut found: usize = 0;
        let mut slot: usize = 0;
        while slot < TASK_SLOT_COUNT
            invariant
                self.wf(),
                holds == (|slot: usize| self@.task(slot).state == state),
                slot <= TASK_SLOT_COUNT,
                found <= slot,
                found == donation::count(holds, slot as nat),
            decreases TASK_SLOT_COUNT - slot,
        {
            assert(self@.tasks[slot as int] == self.tasks@[slot as int].unlinked());
            if self.tasks[slot].state == state {
                found = found + 1;
            }
            slot = slot + 1;
        }
        found
    }

    /// Snapshots the counters and the census of a full-capacity scheduler.
    pub fn diagnostics(&self) -> (r: Diagnostics)
        requires
            self.wf(),
            self.reservations.wf(),
        ensures
            r == self@.snapshot(DYNAMIC_TASK_CAPACITY as u8),
    {
        self.diagnostics_with_capacity(DYNAMIC_TASK_CAPACITY)
    }

    /// Snapshots the counters and the census for `capacity` dynamic slots.
    pub fn diagnostics_with_capacity(&self, capacity: usize) -> (r: Diagnostics)
        requires
            self.wf(),
            self.reservations.wf(),
            capacity <= u8::MAX,
        ensures
            r == self@.snapshot(capacity as u8),
    {
        let mut snapshot = self.diagnostics;
        assert(self@.tasks[self.current as int] == self.tasks@[self.current as int].unlinked());
        snapshot.current_task = self.current;
        snapshot.current_lock_depth = self.tasks[self.current].scheduler_lock_depth;
        snapshot.ready_tasks = count_on(snapshot.ready_tasks, self.count_state(State::Ready));
        snapshot.blocked_tasks = count_on(snapshot.blocked_tasks, self.count_state(State::Blocked));
        snapshot.sleeping_tasks =
        count_on(snapshot.sleeping_tasks, self.count_state(State::Sleeping));
        snapshot.throttled_tasks =
        count_on(snapshot.throttled_tasks, self.count_state(State::Throttled));
        snapshot.dynamic_capacity = capacity as u8;
        snapshot.dynamic_used = count_on(0, self.count_dynamic_used());
        snapshot.dynamic_reserved = count_on(0, self.reservations.total_remaining());
        snapshot.dynamic_free = self.dynamic_slots_available(capacity) as u8;
        snapshot
    }

    /// Copies slot details into `output`, as many as both hold, and returns how many.
    pub fn task_diagnostics(&self, output: &mut [TaskDiagnostic], now: u64) -> (r: usize)
        requires
            self.wf(),
        ensures
            r == (if old(output)@.len() < TASK_SLOT_COUNT {
                old(output)@.len() as int
            } else {
                TASK_SLOT_COUNT as int
            }),
            final(output)@.len() == old(output)@.len(),
            forall|i: int|
                0 <= i < r ==> #[trigger] final(output)@[i] == self@.slot_snapshot(i as usize, now),
            forall|i: int|
                r <= i < old(output)@.len() ==> #[trigger] final(output)@[i] == old(output)@[i],
    {
        let count: usize = if output.len() < TASK_SLOT_COUNT {
            output.len()
        } else {
            TASK_SLOT_COUNT
        };
        let ghost before = output@;
        let mut index: usize = 0;
        while index < count
            invariant
                self.wf(),
                index <= count <= TASK_SLOT_COUNT,
                count <= output@.len() == before.len(),
                forall|i: int|
                    0 <= i < index ==> #[trigger] output@[i] == self@.slot_snapshot(
                        i as usize,
                        now,
                    ),
                forall|i: int| index <= i < before.len() ==> #[trigger] output@[i] == before[i],
            decreases count - index,
        {
            assert(self@.tasks[index as int] == self.tasks@[index as int].unlinked());
            output[index] = describe(index, &self.tasks[index], now);
            index = index + 1;
        }
        count
    }
}

} // verus!
