//! Configuration, capability handles and diagnostic snapshots.
use std::marker::PhantomData;
use vstd::prelude::*;
use crate::error::DriverError;
use crate::nonzero::{NonZeroU32, NonZeroUsize};
use crate::scheduling::RunPolicy;

verus! {

/// The application thread adopted when the scheduler starts.
pub const ADOPTED_MAIN_TASKS: usize = 1;

/// Scheduler-owned idle threads that cannot be allocated by applications.
pub const INTERNAL_IDLE_TASKS: usize = 1;

/// Dynamic task slots available through the runtime contract.
pub const DYNAMIC_TASK_CAPACITY: usize = 15;

/// Total scheduler slots, including adopted and internal threads.
pub const TASK_SLOT_COUNT: usize = 17;

/// Priority levels: 0 is highest, 31 is lowest.
pub const PRIORITY_LEVELS: usize = 32;

/// Reserved scheduler slot for the always-eligible idle thread.
pub const IDLE_SLOT: usize = 1;

/// Stack bytes reserved for the idle thread.
pub const IDLE_STACK_SIZE: usize = 2048;

/// Semaphores, and mutexes, that can exist at the same time.
pub const RESOURCE_HANDLE_CAPACITY: usize = 32;

/// Sentinel "no task" index for intrusive list links.
pub const NIL: usize = usize::MAX;

/// Resources that the application gives the runtime.
#[derive(Clone, Copy, Debug, Eq, PartialEq, Structural)]
pub struct Resources {
    /// Dynamic task slots that the installed stack storage admits.
    pub dynamic_capacity: usize,
}

/// Timing limits of the target's scheduler timer.
///
/// The runtime asks for non-zero relative delays no greater than
/// `max_timer_delay` and chunks longer deadlines.
#[derive(Clone, Copy, Debug, Eq, PartialEq, Structural)]
pub struct SchedulerPort {
    /// Largest delay that the one-shot timer accepts.
    pub max_timer_delay: NonZeroU32,
}

/// A fail-stop violation detected by the target-backed scheduler.
#[derive(Clone, Copy, Debug, Eq, PartialEq, Structural)]
pub enum ContractViolation {
    /// A task held the scheduler lock beyond the configured bound.
    SchedulerLockOverrun {
        /// Scheduler slot that owns the lock.
        task_slot: usize,
        /// Observed lock hold time in milliseconds.
        held_ms: u64,
        /// Configured upper bound in milliseconds.
        limit_ms: u32,
    },
}

/// Firmware-wide scheduling policy selected before the runtime starts.
#[derive(Clone, Copy, Debug, Eq, PartialEq, Structural)]
pub enum SchedulingPolicy {
    /// Explicit yield/block points use creation-order FIFO scheduling.
    Cooperative,
    /// Explicit scheduling points select the lowest numeric task priority.
    /// Timer-driven preemption additionally requires a configured time slice
    /// and a timer port.
    Priority,
}

/// Firmware-wide scheduler configuration fixed before the first task starts.
#[derive(Clone, Copy, Debug, Eq, PartialEq, Structural)]
pub struct Config {
    /// Minimum stack allocation applied to every task request.
    pub minimum_stack_size: NonZeroUsize,
    /// Ready-queue selection policy.
    pub scheduling: SchedulingPolicy,
    /// Optional round-robin time slice for equal-priority ready tasks.
    ///
    /// Requires a timer port; ignored when none is installed.
    pub time_slice: Option<NonZeroU32>,
}

/// Scheduler configuration for the port-less cooperative-only profile.
#[derive(Clone, Copy, Debug, Eq, PartialEq, Structural)]
pub struct CooperativeConfig {
    /// Minimum stack allocation applied to every task request.
    pub minimum_stack_size: NonZeroUsize,
}

/// Scheduler configuration for a target with timer and reschedule ports.
#[derive(Clone, Copy, Debug, Eq, PartialEq, Structural)]
pub struct PortedConfig {
    /// Minimum stack allocation applied to every task request.
    pub minimum_stack_size: NonZeroUsize,
    /// Default per-thread policy for tasks created through the radio driver
    /// contract.
    pub radio_task_policy: RunPolicy,
    /// Maximum time a task may continuously hold the scheduler lock.
    ///
    /// Interrupts remain enabled while the lock is held, so the shared timer
    /// detects expiry and reports a [`ContractViolation`].
    pub max_scheduler_lock_duration: NonZeroU32,
}

/// Capability marker for the port-less cooperative-only runtime.
pub struct CooperativeOnly {}

/// Capability marker for a runtime with timer and deferred-reschedule ports.
pub struct Ported {}

/// Proof that the runtime started with capability `Mode`.
#[must_use]
pub struct RuntimeHandle<Mode> {
    mode: PhantomData<Mode>,
}

impl<Mode> RuntimeHandle<Mode> {
    pub(crate) fn new() -> (r: Self) {
        RuntimeHandle { mode: PhantomData }
    }
}

/// Read-only scheduler counters and task-state census for bring-up diagnostics.
#[derive(Clone, Copy, Debug, Default, Eq, PartialEq, Structural)]
pub struct Diagnostics {
    pub context_switches: u32,
    pub irq_preemptions: u32,
    pub timer_interrupts: u32,
    pub software_interrupts: u32,
    pub time_slice_preemptions: u32,
    pub priority_inheritances: u32,
    pub yields: u32,
    pub sleeps: u32,
    pub sleeper_wakes: u32,
    pub semaphore_blocks: u32,
    pub semaphore_wakes: u32,
    pub semaphore_timeouts: u32,
    pub scheduler_locks: u32,
    pub scheduler_lock_overruns: u32,
    pub budget_exhaustions: u32,
    pub budget_throttles: u32,
    pub budget_replenishments: u32,
    pub budget_lock_overruns: u32,
    /// Switch requests withdrawn because an interrupt had already served them.
    pub switch_race_recoveries: u32,
    pub switch_intents_created: u32,
    pub switch_intents_committed: u32,
    pub switch_intents_completed: u32,
    /// Switch requests withdrawn because their source had resumed meanwhile.
    pub switch_intents_cancelled_stale: u32,
    /// Switch requests withdrawn because a slot had been reused meanwhile.
    pub switch_intents_cancelled_identity: u32,
    pub current_task: usize,
    pub ready_tasks: u8,
    pub blocked_tasks: u8,
    pub sleeping_tasks: u8,
    pub throttled_tasks: u8,
    /// Scheduler-owned main and idle slots.
    pub internal_tasks: u8,
    /// Dynamic task slots promised by this runtime build.
    pub dynamic_capacity: u8,
    /// Dynamic slots currently occupied by live tasks.
    pub dynamic_used: u8,
    /// Dynamic slots promised to reservations but not yet occupied.
    pub dynamic_reserved: u8,
    /// Dynamic slots currently available for task creation.
    pub dynamic_free: u8,
    pub current_lock_depth: u16,
}

impl Diagnostics {
    /// The counters of a scheduler that has not run yet.
    pub open spec fn initial() -> Diagnostics {
        Diagnostics {
            context_switches: 0,
            irq_preemptions: 0,
            timer_interrupts: 0,
            software_interrupts: 0,
            time_slice_preemptions: 0,
            priority_inheritances: 0,
            yields: 0,
            sleeps: 0,
            sleeper_wakes: 0,
            semaphore_blocks: 0,
            semaphore_wakes: 0,
            semaphore_timeouts: 0,
            scheduler_locks: 0,
            scheduler_lock_overruns: 0,
            budget_exhaustions: 0,
            budget_throttles: 0,
            budget_replenishments: 0,
            budget_lock_overruns: 0,
            switch_race_recoveries: 0,
            switch_intents_created: 0,
            switch_intents_committed: 0,
            switch_intents_completed: 0,
            switch_intents_cancelled_stale: 0,
            switch_intents_cancelled_identity: 0,
            current_task: 0,
            ready_tasks: 0,
            blocked_tasks: 0,
            sleeping_tasks: 0,
            throttled_tasks: 0,
            internal_tasks: 2,
            dynamic_capacity: 15,
            dynamic_used: 0,
            dynamic_reserved: 0,
            dynamic_free: 15,
            current_lock_depth: 0,
        }
    }

    /// The counters of a scheduler that has not run yet.
    pub fn empty() -> (r: Self)
        ensures
            r == Diagnostics::initial(),
    {
        Diagnostics {
            context_switches: 0,
            irq_preemptions: 0,
            timer_interrupts: 0,
            software_interrupts: 0,
            time_slice_preemptions: 0,
            priority_inheritances: 0,
            yields: 0,
            sleeps: 0,
            sleeper_wakes: 0,
            semaphore_blocks: 0,
            semaphore_wakes: 0,
            semaphore_timeouts: 0,
            scheduler_locks: 0,
            scheduler_lock_overruns: 0,
            budget_exhaustions: 0,
            budget_throttles: 0,
            budget_replenishments: 0,
            budget_lock_overruns: 0,
            switch_race_recoveries: 0,
            switch_intents_created: 0,
            switch_intents_committed: 0,
            switch_intents_completed: 0,
            switch_intents_cancelled_stale: 0,
            switch_intents_cancelled_identity: 0,
            current_task: 0,
            ready_tasks: 0,
            blocked_tasks: 0,
            sleeping_tasks: 0,
            throttled_tasks: 0,
            internal_tasks: (ADOPTED_MAIN_TASKS + INTERNAL_IDLE_TASKS) as u8,
            dynamic_capacity: DYNAMIC_TASK_CAPACITY as u8,
            dynamic_used: 0,
            dynamic_reserved: 0,
            dynamic_free: DYNAMIC_TASK_CAPACITY as u8,
            current_lock_depth: 0,
        }
    }
}

/// State of one scheduler slot in a read-only bring-up snapshot.
#[derive(Clone, Copy, Debug, Default, Eq, PartialEq, Structural)]
pub enum TaskState {
    #[default]
    Free,
    Ready,
    Running,
    Blocked,
    Sleeping,
    Throttled,
}

/// Read-only scheduler slot details for diagnosing blocked radio workers.
#[derive(Clone, Copy, Debug, Default, Eq, PartialEq, Structural)]
pub struct TaskDiagnostic {
    pub task: usize,
    pub generation: u16,
    pub state: TaskState,
    pub entry: usize,
    /// Bytes of the dynamically allocated stack, zero for adopted stacks.
    pub stack_size: usize,
    pub waiting_sem: usize,
    pub waiting_mutex: usize,
    pub wake_at: u64,
    pub base_priority: u8,
    /// Effective priority after inheritance (lower value is higher priority).
    pub priority: u8,
    pub scheduler_lock_depth: u16,
    pub run_policy: RunPolicy,
    pub budget_remaining: u32,
    pub budget_replenishes_at: u64,
    /// Cumulative dispatch-to-switch wall time charged to the task.
    ///
    /// This includes time spent servicing interrupts while the task was the
    /// interrupted context; subtract [`Self::irq_time_ms`] for the corresponding
    /// thread-mode estimate.
    pub cpu_time_ms: u64,
    /// Cumulative outermost interrupt-handler time attributed to the task.
    pub irq_time_ms: u64,
    /// Number of times the task became the running task.
    pub dispatches: u32,
    /// Number of the task's Budgeted quota exhaustion events.
    pub budget_exhaustions: u32,
    /// Longest uninterrupted dispatch-to-switch interval observed.
    pub max_continuous_run_ms: u64,
    /// Longest interval from becoming ready to being dispatched.
    pub max_ready_latency_ms: u64,
    /// Number of outermost scheduler-lock acquisitions by the task.
    pub scheduler_lock_entries: u32,
    /// Longest outermost scheduler-lock hold interval observed.
    pub max_scheduler_lock_ms: u64,
    /// Number of outermost interrupt entries attributed to the task.
    pub irq_entries: u32,
    /// Longest outermost interrupt-handler interval attributed to the task.
    pub max_irq_span_ms: u64,
}

fn nonzero_size(value: usize) -> (r: NonZeroUsize)
    requires
        value != 0,
    ensures
        r@ == value,
{
    NonZeroUsize::new(value).unwrap()
}

impl Default for CooperativeConfig {
    /// The 24 KiB default of the vendor archive.
    fn default() -> (r: Self)
        ensures
            r.minimum_stack_size@ == 24 * 1024,
    {
        CooperativeConfig { minimum_stack_size: nonzero_size(24 * 1024) }
    }
}

impl Default for PortedConfig {
    fn default() -> (r: Self)
        ensures
            r.minimum_stack_size@ == 24 * 1024,
            r.radio_task_policy is Cooperative,
            r.max_scheduler_lock_duration@ == 100,
    {
        PortedConfig {
            minimum_stack_size: nonzero_size(24 * 1024),
            radio_task_policy: RunPolicy::Cooperative,
            max_scheduler_lock_duration: NonZeroU32::new(100).unwrap(),
        }
    }
}

impl Default for Config {
    fn default() -> (r: Self)
        ensures
            r.minimum_stack_size@ == 24 * 1024,
            r.scheduling is Cooperative,
            r.time_slice is None,
    {
        Config {
            minimum_stack_size: nonzero_size(24 * 1024),
            scheduling: SchedulingPolicy::Cooperative,
            time_slice: None,
        }
    }
}

/// Failure to start the runtime.
#[derive(Clone, Copy, Debug, Eq, PartialEq, Structural)]
pub enum StartError {
    /// This runtime instance was already started.
    AlreadyStarted,
    /// Another runtime already owns the radio driver contract.
    Driver(DriverError),
}

} // verus!
