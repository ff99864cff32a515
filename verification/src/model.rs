//! The mathematical model of the scheduler.
//!
//! A [`SchedModel`] is a scheduler without its pointers: every queue is a
//! sequence of slots and every task block is taken without its link. Each
//! operation of the scheduler is a function from model to model.
use vstd::prelude::*;
use crate::config::{Diagnostics, SchedulingPolicy, IDLE_SLOT, NIL, TASK_SLOT_COUNT};
use crate::links;
use crate::metrics;
use crate::nonzero::NonZeroU32;
use crate::reservation::ReservationTable;
use crate::task::{State, Tcb};

verus! {

/// A request to switch from one task to another, bound to both identities and to
/// the source's activation.
#[derive(Clone, Copy, Debug, Eq, PartialEq, Structural)]
pub struct SwitchIntent {
    pub source: usize,
    pub source_generation: u16,
    pub source_resume: u32,
    pub target: usize,
    pub target_generation: u16,
}

/// The scheduler without its pointers.
///
/// Queues 0..32 are the ready queues by priority level, 32..64 the waiters of the
/// semaphores and 64..96 the waiters of the mutexes.
#[verifier::ext_equal]
pub struct SchedModel {
    pub tasks: Seq<Tcb>,
    pub queues: Seq<Seq<usize>>,
    pub sem_counts: Seq<i32>,
    pub mutex_owner: Seq<usize>,
    pub mutex_depth: Seq<u32>,
    pub current: usize,
    pub retired: Seq<usize>,
    pub slot_generations: Seq<u16>,
    pub time_slice_pending: bool,
    pub time_slice_deadline: u64,
    pub pending_switch: Option<SwitchIntent>,
    pub started: bool,
    pub diagnostics: Diagnostics,
    pub reservations: ReservationTable,
    pub policy: Option<SchedulingPolicy>,
    pub time_slice: Option<NonZeroU32>,
}

impl SchedModel {
    // ---- Parts -------------------------------------------------------------
    pub open spec fn task(self, slot: usize) -> Tcb {
        self.tasks[slot as int]
    }

    pub open spec fn with_task(self, slot: usize, task: Tcb) -> SchedModel {
        SchedModel { tasks: self.tasks.update(slot as int, task), ..self }
    }

    pub open spec fn with_queue(self, queue: int, members: Seq<usize>) -> SchedModel {
        SchedModel { queues: self.queues.update(queue, members), ..self }
    }

    pub open spec fn with_diagnostics(self, diagnostics: Diagnostics) -> SchedModel {
        SchedModel { diagnostics, ..self }
    }

    pub open spec fn with_mutex(self, mutex: int, owner: usize, depth: u32) -> SchedModel {
        SchedModel {
            mutex_owner: self.mutex_owner.update(mutex, owner),
            mutex_depth: self.mutex_depth.update(mutex, depth),
            ..self
        }
    }

    /// The waiters of semaphore `sem`, in the order in which they are served.
    pub open spec fn sem_waiters(self, sem: int) -> Seq<usize> {
        self.queues[32 + sem]
    }

    /// The waiters of mutex `mutex`, in the order in which they are served.
    pub open spec fn mutex_waiters(self, mutex: int) -> Seq<usize> {
        self.queues[64 + mutex]
    }

    /// Every table has its size and every index stays inside its table.
    pub open spec fn fits(self) -> bool {
        &&& self.tasks.len() == TASK_SLOT_COUNT
        &&& self.queues.len() == 96
        &&& self.sem_counts.len() == 32
        &&& self.mutex_owner.len() == 32
        &&& self.mutex_depth.len() == 32
        &&& self.slot_generations.len() == TASK_SLOT_COUNT
        &&& self.current < TASK_SLOT_COUNT
        &&& forall|i: int|
            0 <= i < TASK_SLOT_COUNT ==> {
                let t = #[trigger] self.tasks[i];
                &&& t.priority < 32
                &&& t.base_priority < 32
                &&& t.waiting_sem <= 32
                &&& t.waiting_mutex <= 32
                &&& t.granted_sem <= 32
                &&& t.granted_mutex <= 32
            }
        &&& forall|x: int|
            0 <= x < 32 ==> #[trigger] self.mutex_owner[x] == NIL || self.mutex_owner[x]
                < TASK_SLOT_COUNT
    }

    // ---- Ready queues ------------------------------------------------------
    /// Slot 1 is the idle thread unless a firmware-wide policy is in force.
    pub open spec fn is_idle(self, slot: usize) -> bool {
        self.policy is None && slot == IDLE_SLOT
    }

    /// The ready queue that serves a task: its effective priority, or the single
    /// first-come queue of the firmware-wide cooperative policy.
    pub open spec fn ready_key(self, slot: usize) -> int {
        if self.policy == Some(SchedulingPolicy::Cooperative) {
            0
        } else {
            self.task(slot).priority as int
        }
    }

    /// `slot` is a member of no queue.
    pub open spec fn loose(self, slot: usize) -> bool {
        forall|q: int| 0 <= q < 96 ==> !(#[trigger] self.queues[q]).contains(slot)
    }

    pub open spec fn pushed(self, slot: usize) -> SchedModel {
        let key = self.ready_key(slot);
        self.with_queue(key, self.queues[key].push(slot))
    }

    /// The best non-empty ready level from `level` on.
    pub open spec fn first_ready_from(self, level: int) -> Option<int>
        decreases 32 - level,
    {
        if level < 0 || level >= 32 {
            None
        } else if self.queues[level].len() > 0 {
            Some(level)
        } else {
            self.first_ready_from(level + 1)
        }
    }

    /// The best non-empty ready level.
    pub open spec fn first_ready(self) -> Option<int> {
        self.first_ready_from(0)
    }

    /// The task that runs next: the longest-waiting one of the best level.
    pub open spec fn pop_slot(self) -> usize {
        match self.first_ready() {
            Some(level) => self.queues[level][0],
            None => NIL,
        }
    }

    pub open spec fn popped(self) -> SchedModel {
        match self.first_ready() {
            Some(level) => self.with_queue(level, self.queues[level].drop_first()),
            None => self,
        }
    }

    /// The task that runs next, with the idle thread as the fallback.
    pub open spec fn pop_or_idle_slot(self) -> usize {
        if self.pop_slot() == NIL && self.policy is None {
            IDLE_SLOT
        } else {
            self.pop_slot()
        }
    }

    pub open spec fn ready_queued(self, slot: usize) -> bool {
        self.queues[self.ready_key(slot)].contains(slot)
    }

    pub open spec fn ready_removed(self, slot: usize) -> SchedModel {
        let key = self.ready_key(slot);
        self.with_queue(key, links::without(self.queues[key], slot))
    }

    /// `slot` becomes ready at `now`; the idle thread is never queued.
    pub open spec fn made_ready(self, slot: usize, now: u64) -> SchedModel {
        let t = self.task(slot);
        let m = self.with_task(
            slot,
            Tcb { state: State::Ready, metrics: t.metrics.made_ready(now), ..t },
        );
        if self.is_idle(slot) {
            m
        } else {
            m.pushed(slot)
        }
    }

    // ---- Wait queues -------------------------------------------------------
    pub open spec fn enqueued(self, queue: int, slot: usize) -> SchedModel {
        self.with_queue(queue, links::enqueued(self.tasks, self.queues[queue], slot))
    }

    pub open spec fn dequeued(self, queue: int, slot: usize) -> SchedModel {
        self.with_queue(queue, links::without(self.queues[queue], slot))
    }

    // ---- Effective priority ------------------------------------------------
    pub open spec fn with_priority_field(self, slot: usize, priority: u8) -> SchedModel {
        self.with_task(slot, Tcb { priority, ..self.task(slot) })
    }

    /// The effective priority of `slot` changes. A queued ready task moves to the
    /// tail of its new level; a semaphore waiter is queued again by priority.
    #[verifier::opaque]
    pub open spec fn with_priority(self, slot: usize, priority: u8) -> SchedModel {
        let t = self.task(slot);
        if t.priority == priority {
            self
        } else if t.state == State::Ready {
            if self.ready_queued(slot) {
                self.ready_removed(slot).with_priority_field(slot, priority).pushed(slot)
            } else {
                self.with_priority_field(slot, priority)
            }
        } else if t.waiting_sem != 0 {
            let queue = 32 + t.waiting_sem - 1;
            self.dequeued(queue, slot).with_priority_field(slot, priority).enqueued(queue, slot)
        } else {
            self.with_priority_field(slot, priority)
        }
    }

    /// The number of donations of `level` to `slot` becomes `count`.
    pub open spec fn with_donations(self, slot: usize, level: u8, count: u8) -> SchedModel {
        let t = self.task(slot);
        self.with_task(
            slot,
            Tcb {
                inherited_waiters: vstd::array::spec_array_update(
                    t.inherited_waiters,
                    level as int,
                    count,
                ),
                ..t
            },
        )
    }

    pub open spec fn donations(self, slot: usize, level: u8) -> u8 {
        self.task(slot).inherited_waiters@[level as int]
    }

    /// One donation to `slot` moves from level `from` to level `to`.
    pub open spec fn redonated(self, slot: usize, from: u8, to: u8) -> SchedModel {
        let m = self.with_donations(slot, from, (self.donations(slot, from) - 1) as u8);
        m.with_donations(slot, to, (m.donations(slot, to) + 1) as u8)
    }

    /// Recomputes the effective priority of `slot` and passes a change on along the
    /// chain of mutex owners, for at most `fuel` tasks.
    pub open spec fn refreshed(self, slot: usize, fuel: nat) -> SchedModel
        decreases fuel,
    {
        let t = self.task(slot);
        let new = t.effective();
        if fuel == 0 || t.priority == new {
            self
        } else {
            let m = self.with_priority(slot, new);
            if t.waiting_mutex == 0 {
                m
            } else {
                let queue = 64 + t.waiting_mutex - 1;
                let requeued = m.dequeued(queue, slot).enqueued(queue, slot);
                let owner = self.mutex_owner[t.waiting_mutex - 1];
                if owner == NIL {
                    requeued
                } else {
                    requeued.redonated(owner, t.priority, new).refreshed(owner, (fuel - 1) as nat)
                }
            }
        }
    }

    /// Refreshing `slot` finds every donation it has to move and reaches the end of
    /// the chain within `fuel` tasks.
    pub open spec fn refreshable(self, slot: usize, fuel: nat) -> bool
        decreases fuel,
    {
        let t = self.task(slot);
        let new = t.effective();
        if fuel == 0 {
            false
        } else if t.priority == new || t.waiting_mutex == 0 {
            true
        } else {
            let queue = 64 + t.waiting_mutex - 1;
            let requeued = self.with_priority(slot, new).dequeued(queue, slot).enqueued(
                queue,
                slot,
            );
            let owner = self.mutex_owner[t.waiting_mutex - 1];
            owner == NIL || {
                &&& requeued.donations(owner, t.priority) > 0
                &&& requeued.donations(owner, new) < u8::MAX
                &&& requeued.redonated(owner, t.priority, new).refreshable(
                    owner,
                    (fuel - 1) as nat,
                )
            }
        }
    }

    pub open spec fn donated(self, owner: usize, level: u8) -> SchedModel {
        self.with_donations(
            owner,
            level,
            (self.donations(owner, level) + 1) as u8,
        ).with_diagnostics(
            Diagnostics {
                priority_inheritances: metrics::bumped(self.diagnostics.priority_inheritances),
                ..self.diagnostics
            },
        )
    }

    pub open spec fn undonated(self, owner: usize, level: u8) -> SchedModel {
        self.with_donations(owner, level, (self.donations(owner, level) - 1) as u8)
    }

    /// `owner` receives one donation of `level`.
    pub open spec fn inheritance_added(self, owner: usize, level: u8) -> SchedModel {
        self.donated(owner, level).refreshed(owner, TASK_SLOT_COUNT as nat)
    }

    /// `owner` loses one donation of `level`.
    pub open spec fn inheritance_removed(self, owner: usize, level: u8) -> SchedModel {
        self.undonated(owner, level).refreshed(owner, TASK_SLOT_COUNT as nat)
    }

    // ---- Placement ---------------------------------------------------------
    /// The one queue in which `slot` may be.
    pub open spec fn home(self, slot: usize) -> int {
        let t = self.task(slot);
        if t.waiting_sem != 0 {
            32 + t.waiting_sem - 1
        } else if t.waiting_mutex != 0 {
            64 + t.waiting_mutex - 1
        } else {
            self.ready_key(slot)
        }
    }

    /// No task waits for a semaphore and a mutex at the same time.
    pub open spec fn waits_once(self) -> bool {
        forall|i: int|
            0 <= i < TASK_SLOT_COUNT ==> (#[trigger] self.tasks[i]).waiting_sem == 0
                || self.tasks[i].waiting_mutex == 0
    }

    /// `slot` may be in queue `q`: it is its home, and a ready queue holds only ready
    /// tasks.
    pub open spec fn seated(self, q: int, slot: usize) -> bool {
        &&& q == self.home(slot)
        &&& q < 32 ==> self.task(slot).state == State::Ready
    }

    /// Every queued task is where it may be.
    pub open spec fn placed(self) -> bool {
        forall|q: int, slot: usize|
            #![trigger self.queues[q].contains(slot)]
            0 <= q < 96 && self.queues[q].contains(slot) ==> self.seated(q, slot)
    }
}

} // verus!
