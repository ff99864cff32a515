//! Values shared with the radio driver contract: errors, identities and waits.
use vstd::prelude::*;
use crate::nonzero::{NonZeroU32, NonZeroUsize};

verus! {

/// Failure reported across the radio runtime contract.
#[derive(Clone, Copy, Debug, Eq, PartialEq, Structural)]
pub enum DriverError {
    /// No runtime has been installed.
    NotInstalled,
    /// A runtime has already been installed.
    AlreadyInstalled,
    /// The runtime speaks another version of the contract.
    IncompatibleContract,
    /// The runtime cannot provide the requested execution behaviour.
    IncompatibleExecutionProfile,
    /// Memory or a bounded table is exhausted.
    ResourceExhausted,
    /// No dynamic task slot is free.
    NoTaskSlots,
    /// An opaque handle does not name a live object.
    InvalidHandle,
    /// The operation is not permitted in the calling context.
    InvalidContext,
    /// A bounded wait expired.
    TimedOut,
    /// The runtime failed internally.
    Runtime,
}

/// Opaque task identity handed to applications.
#[derive(Clone, Copy, Debug, Eq, PartialEq, Structural)]
pub struct TaskId {
    pub raw: u32,
}

impl TaskId {
    pub fn from_raw(raw: u32) -> (r: Self)
        ensures
            r.raw == raw,
    {
        TaskId { raw }
    }

    pub fn into_raw(self) -> (r: u32)
        ensures
            r == self.raw,
    {
        self.raw
    }
}

/// Opaque proof that a number of dynamic task slots is set aside.
#[derive(Clone, Copy, Debug, Eq, PartialEq, Structural)]
pub struct TaskReservation {
    pub raw: NonZeroU32,
}

impl TaskReservation {
    pub fn from_raw(raw: NonZeroU32) -> (r: Self)
        ensures
            r.raw == raw,
    {
        TaskReservation { raw }
    }

    pub fn into_raw(&self) -> (r: NonZeroU32)
        ensures
            r == self.raw,
    {
        self.raw
    }
}

/// Component on whose behalf a group of task resources is requested.
#[derive(Clone, Copy, Debug, Eq, PartialEq, Structural)]
pub struct TaskResourceOwner {
    pub id: NonZeroU32,
}

impl TaskResourceOwner {
    pub fn new(id: NonZeroU32) -> (r: Self)
        ensures
            r.id == id,
    {
        TaskResourceOwner { id }
    }
}

/// Why task resources could not be admitted.
#[derive(Clone, Copy, Debug, Eq, PartialEq, Structural)]
pub enum TaskAdmissionError {
    /// The runtime itself failed.
    Runtime(DriverError),
    /// Not enough dynamic slots are left.
    InsufficientTaskSlots { required: usize, available: usize },
    /// Not enough stack memory is left.
    InsufficientTaskStackMemory { required: usize, available: usize },
    /// Not enough dynamic slots are left for one group of a plan.
    InsufficientTaskGroupSlots { owner: TaskResourceOwner, required: usize, available: usize },
    /// Not enough stack memory is left for one group of a plan.
    InsufficientTaskGroupStackMemory {
        owner: TaskResourceOwner,
        required: usize,
        available: usize,
        largest_contiguous: usize,
    },
}

/// How long a wait may take.
#[derive(Clone, Copy, Debug, Eq, PartialEq, Structural)]
pub enum WaitTimeout {
    /// Only take what is available at once.
    NoWait,
    /// Give up after this many milliseconds.
    Milliseconds(NonZeroU32),
    /// Never give up.
    Forever,
}

impl WaitTimeout {
    /// The millisecond encoding of a timeout: zero polls and the maximum waits
    /// forever.
    pub open spec fn ms(self) -> u32 {
        match self {
            WaitTimeout::NoWait => 0,
            WaitTimeout::Milliseconds(value) => value@,
            WaitTimeout::Forever => u32::MAX,
        }
    }

    pub fn into_ms(self) -> (r: u32)
        ensures
            r == self.ms(),
    {
        match self {
            WaitTimeout::NoWait => 0,
            WaitTimeout::Milliseconds(value) => value.get(),
            WaitTimeout::Forever => u32::MAX,
        }
    }
}

/// How a wait ended.
#[derive(Clone, Copy, Debug, Eq, PartialEq, Structural)]
pub enum WaitOutcome {
    Acquired,
    TimedOut,
}

/// Whether a cancellation found something to cancel.
#[derive(Clone, Copy, Debug, Eq, PartialEq, Structural)]
pub enum WaitCancellationOutcome {
    Cancelled,
    NotWaiting,
}

/// Handle of a semaphore owned by the runtime.
#[derive(Clone, Copy, Debug, Eq, PartialEq, Structural)]
pub struct SemaphoreHandle {
    pub raw: NonZeroUsize,
}

/// Handle of a mutex owned by the runtime.
#[derive(Clone, Copy, Debug, Eq, PartialEq, Structural)]
pub struct MutexHandle {
    pub raw: NonZeroUsize,
}

} // verus!
