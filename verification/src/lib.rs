//! Scheduler and runtime services for single-hart firmware.
//!
//! One scheduler serves cooperative, budgeted and preemptive tasks. [`kernel::Kernel`] holds
//! it together with the handles, the interrupt depth and the timer ticket, and decides; the
//! target carries out context switches and programs the timer.
//!
//! Every operation refines a function on [`model::SchedModel`], in which queues are sequences.
//! [`laws`] states what all operations keep, [`targets`] that a chosen task can run, and
//! [`promises`] what else holds of their choices. [`waits`] states when sleeps and waits
//! end, [`quotas`] what quotas are for, [`deadlines`] what the timer is programmed for, and
//! [`outcomes`] what requests lead to.
pub mod config;
pub mod context;
pub mod error;
pub mod identity;
pub mod nonzero;
pub mod scheduling;
pub mod metrics;
pub mod task;
pub mod resource;
pub mod reservation;
pub mod admission;
pub mod stacks;
pub mod storage;
pub mod blocks;
pub mod alarm;

pub mod model;
pub mod links;
pub mod scheduler;
pub mod inheritance;
pub mod donation;
pub mod coherence;
pub mod sync;
pub mod semaphore;
pub mod mutex;
pub mod locking;
pub mod switching;
pub mod schedlock;
pub mod timing;
pub mod dispatch;
pub mod slots;
pub mod planning;
pub mod snapshot;
pub mod running;
pub mod lifecycle;

pub mod kernel;
pub mod services;
pub mod objects;
pub mod reserve;

pub mod laws;
pub mod presence;
pub mod targets;
pub mod waits;
pub mod quotas;
pub mod deadlines;
pub mod outcomes;
pub mod promises;

pub use config::{
    Config, ContractViolation, CooperativeConfig, CooperativeOnly, Diagnostics, Ported,
    PortedConfig, Resources, RuntimeHandle, SchedulerPort, SchedulingPolicy, StartError,
    TaskDiagnostic, TaskState, DYNAMIC_TASK_CAPACITY,
};
pub use error::TaskId;
pub use kernel::{
    diagnostics, interrupt_enter, interrupt_exit, on_software_interrupt, on_timer_interrupt,
    request_reschedule, start, start_cooperative, start_with_port, task_diagnostics,
};
pub use scheduling::{BudgetSpec, RunPolicy};
pub use storage::{
    InstalledSchedulerStorage, SchedulerStackArena, SchedulerStorage, StorageError,
};
