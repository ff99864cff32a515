//! Task control blocks.
use vstd::prelude::*;
use crate::config::{NIL, PRIORITY_LEVELS};
use crate::context::TaskContext;
use crate::metrics::TaskMetrics;
use crate::scheduling::{BudgetState, RunPolicy};

verus! {

/// Scheduling state of one slot.
#[derive(Clone, Copy, Debug, PartialEq, Eq, Structural)]
pub enum State {
    Free,
    Ready,
    Running,
    Blocked,
    Sleeping,
    Throttled,
}

/// One task slot.
#[derive(Clone, Copy)]
pub struct Tcb {
    pub ctx: TaskContext,
    /// Address of the saved trap frame, zero when there is none.
    pub saved_frame: usize,
    pub resume_generation: u32,
    pub state: State,
    /// Stack allocation to free on exit, zero for adopted stacks.
    pub stack: usize,
    /// Bytes of the stack allocation.
    pub stack_size: usize,
    /// Address of the entry function.
    pub entry: Option<usize>,
    /// Argument word of the entry function.
    pub arg: usize,
    /// Intrusive link: ready queue or one wait queue.
    pub next: usize,
    /// Millisecond deadline, zero when there is none.
    pub wake_at: u64,
    /// One-based index of the semaphore the task waits for, or zero.
    pub waiting_sem: usize,
    /// One-based index of the mutex the task waits for, or zero.
    pub waiting_mutex: usize,
    /// One-based index of the semaphore granted but not yet consumed, or zero.
    pub granted_sem: usize,
    /// One-based index of the mutex handed over but not yet consumed, or zero.
    pub granted_mutex: usize,
    pub sem_granted: bool,
    pub base_priority: u8,
    /// Effective priority after inheritance.
    pub priority: u8,
    /// For each priority level, the number of waiters that donate it.
    pub inherited_waiters: [u8; 32],
    pub scheduler_lock_depth: u16,
    pub scheduler_lock_started_at: Option<u64>,
    pub identity_generation: u16,
    pub run_policy: RunPolicy,
    pub budget: BudgetState,
    pub metrics: TaskMetrics,
}

impl Tcb {
    /// The block without its queue link.
    pub open spec fn unlinked(self) -> Tcb {
        Tcb { next: NIL, ..self }
    }

    /// A block that belongs to no task.
    pub open spec fn blank() -> Tcb {
        Tcb {
            ctx: TaskContext::blank(),
            saved_frame: 0,
            resume_generation: 0,
            state: State::Free,
            stack: 0,
            stack_size: 0,
            entry: None,
            arg: 0,
            next: NIL,
            wake_at: 0,
            waiting_sem: 0,
            waiting_mutex: 0,
            granted_sem: 0,
            granted_mutex: 0,
            sem_granted: false,
            base_priority: 31,
            priority: 31,
            inherited_waiters: [0u8; 32usize],
            scheduler_lock_depth: 0,
            scheduler_lock_started_at: None,
            identity_generation: 0,
            run_policy: RunPolicy::Cooperative,
            budget: BudgetState::fresh(RunPolicy::Cooperative, 0),
            metrics: TaskMetrics::zero(),
        }
    }

    pub fn empty() -> (r: Self)
        ensures
            r == Tcb::blank(),
    {
        Tcb {
            ctx: TaskContext::zero(),
            saved_frame: 0,
            resume_generation: 0,
            state: State::Free,
            stack: 0,
            stack_size: 0,
            entry: None,
            arg: 0,
            next: NIL,
            wake_at: 0,
            waiting_sem: 0,
            waiting_mutex: 0,
            granted_sem: 0,
            granted_mutex: 0,
            sem_granted: false,
            base_priority: (PRIORITY_LEVELS - 1) as u8,
            priority: (PRIORITY_LEVELS - 1) as u8,
            inherited_waiters: [0;32],
            scheduler_lock_depth: 0,
            scheduler_lock_started_at: None,
            identity_generation: 0,
            run_policy: RunPolicy::Cooperative,
            budget: BudgetState::none(),
            metrics: TaskMetrics::new(),
        }
    }

    /// The best priority that some waiter donates, if there is one: the least
    /// level from `level` on with a non-zero count.
    pub open spec fn best_donation(self, level: int) -> Option<u8>
        decreases 32 - level,
    {
        if level < 0 || level >= 32 {
            None
        } else if self.inherited_waiters@[level] != 0 {
            Some(level as u8)
        } else {
            self.best_donation(level + 1)
        }
    }

    /// The effective priority that base priority and donations call for.
    pub open spec fn effective(self) -> u8 {
        match self.best_donation(0) {
            Some(level) => if level < self.base_priority {
                level
            } else {
                self.base_priority
            },
            None => self.base_priority,
        }
    }

    /// Without donations the base priority is the effective one.
    pub proof fn lemma_no_donation(self, level: int)
        requires
            forall|l: int| 0 <= l < 32 ==> #[trigger] self.inherited_waiters@[l] == 0,
        ensures
            self.best_donation(level) is None,
        decreases 32 - level,
    {
        if 0 <= level < 32 {
            self.lemma_no_donation(level + 1);
        }
    }

    /// The best donation is at least as good as any.
    pub(crate) proof fn lemma_best_at_most(self, from: int, level: int)
        requires
            0 <= from <= level < 32,
            self.inherited_waiters@[level] != 0,
        ensures
            self.best_donation(from) is Some,
            self.best_donation(from)->0 <= level,
        decreases level - from,
    {
        if self.inherited_waiters@[from] == 0 {
            self.lemma_best_at_most(from + 1, level);
        }
    }

    /// The best donation is a donation.
    pub(crate) proof fn lemma_best_counts(self, from: int)
        ensures
            self.best_donation(from) matches Some(level) ==> level < 32
                && self.inherited_waiters@[level as int] != 0,
        decreases 32 - from,
    {
        if 0 <= from < 32 && self.inherited_waiters@[from] == 0 {
            self.lemma_best_counts(from + 1);
        }
    }

    /// Computes the effective priority of the block.
    pub fn effective_priority(&self) -> (r: u8)
        ensures
            r == self.effective(),
    {
        let mut level: usize = 0;
        while level < PRIORITY_LEVELS
            invariant
                level <= 32,
                self.best_donation(0) == self.best_donation(level as int),
            decreases 32 - level,
        {
            if self.inherited_waiters[level] != 0 {
                let inherited: u8 = level as u8;
                if inherited < self.base_priority {
                    return inherited;
                }
                return self.base_priority;
            }
            level = level + 1;
        }
        self.base_priority
    }
}

} // verus!
