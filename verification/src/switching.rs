//! Choosing the next task and switching to it.
use vstd::prelude::*;
use crate::config::{SchedulingPolicy, IDLE_SLOT, NIL, PRIORITY_LEVELS, TASK_SLOT_COUNT};
use crate::links;
use crate::model::SchedModel;
use crate::scheduler::Sched;
use crate::scheduling::RunPolicy;
use crate::task::State;

verus! {

impl SchedModel {
    // ---- Voluntary and forced handoff --------------------------------------
    /// The ready levels below this bound may take over from the current task.
    ///
    /// Nothing takes over from a task that is not running or that holds the
    /// scheduler lock. The idle thread gives way to every ready task. Any other task
    /// gives way to better priorities, and with `allow_equal` to its own, if its
    /// policy, or the firmware-wide one, is preemptive.
    pub open spec fn takeover_bound(self, allow_equal: bool) -> int {
        let t = self.task(self.current);
        let by_priority = t.priority + (if allow_equal {
            1int
        } else {
            0int
        });
        if t.state != State::Running || t.scheduler_lock_depth != 0 {
            0
        } else {
            match self.policy {
                Some(SchedulingPolicy::Cooperative) => 0,
                Some(SchedulingPolicy::Priority) => by_priority,
                None => if self.current == IDLE_SLOT {
                    32
                } else if t.run_policy is Preemptive {
                    by_priority
                } else {
                    0
                },
            }
        }
    }

    /// A task of a level below the bound is ready.
    pub open spec fn takeover_due(self, allow_equal: bool) -> bool {
        match self.first_ready() {
            Some(level) => level < self.takeover_bound(allow_equal),
            None => false,
        }
    }

    /// The current task gives way to a ready task of a level below the bound.
    pub open spec fn rescheduled(self, allow_equal: bool, now: u64) -> (
        SchedModel,
        Option<(usize, usize)>,
    ) {
        if self.takeover_due(allow_equal) {
            (
                self.popped().made_ready(self.current, now),
                Some((self.current, self.pop_slot())),
            )
        } else {
            (self, None)
        }
    }

    /// `slot` hands over to the next ready task, chosen before it is queued itself.
    pub open spec fn yielded(self, slot: usize, now: u64) -> (SchedModel, Option<usize>) {
        if self.pop_slot() == NIL {
            (self, None)
        } else {
            (self.popped().made_ready(slot, now), Some(self.pop_slot()))
        }
    }

    /// The task that replaces a current task that no longer runs.
    pub open spec fn replaced(self) -> (SchedModel, Option<(usize, usize)>) {
        (
            self.popped(),
            if self.pop_or_idle_slot() == NIL {
                None
            } else {
                Some((self.current, self.pop_or_idle_slot()))
            },
        )
    }

    pub(crate) proof fn lemma_rescheduled(self, allow_equal: bool, now: u64)
        requires
            self.coherent(),
        ensures
            self.rescheduled(allow_equal, now).0.coherent(),
            self.tidy() ==> self.rescheduled(allow_equal, now).0.tidy(),
            self.takeover_due(allow_equal) ==> {
                &&& self.task(self.current).state == State::Running
                &&& self.popped().loose(self.current)
                &&& self.pop_slot() < TASK_SLOT_COUNT
            },
    {
        self.lemma_first_ready(0);
        if self.takeover_due(allow_equal) {
            let cur = self.current;
            assert(self.tasks[cur as int].priority < 32);
            self.lemma_unqueued_when_idle_state(cur);
            self.lemma_popped_coherent();
            self.popped().lemma_made_ready_coherent(cur, now);
            self.lemma_popped_tidy();
            self.popped().lemma_made_ready_tidy(cur, now);
            let level = self.first_ready()->0;
            let s = self.queues[level];
            assert(s.contains(s[0]));
        }
    }

    pub(crate) proof fn lemma_popped_tidy(self)
        requires
            self.coherent(),
        ensures
            self.tidy() ==> self.popped().tidy(),
    {
        let n = self.popped();
        self.lemma_first_ready(0);
        if let Some(level) = self.first_ready() {
            let s = self.queues[level];
            assert(n.tasks == self.tasks);
            self.lemma_tidy_frame(n);
            if self.tidy() && self.policy is None {
                links::lemma_drop_first(s);
                assert forall|q: int| 0 <= q < 32 implies !(#[trigger] n.queues[q]).contains(
                    IDLE_SLOT,
                ) by {
                    assert(!self.queues[q].contains(IDLE_SLOT));
                }
            }
        }
    }

    pub(crate) proof fn lemma_yielded(self, slot: usize, now: u64)
        requires
            self.coherent(),
            slot < TASK_SLOT_COUNT,
            self.task(slot).state == State::Running,
        ensures
            self.yielded(slot, now).0.coherent(),
            self.tidy() ==> self.yielded(slot, now).0.tidy(),
            self.popped().loose(slot),
    {
        self.lemma_unqueued_when_idle_state(slot);
        self.lemma_popped_coherent();
        self.lemma_popped_tidy();
        if self.pop_slot() != NIL {
            self.popped().lemma_made_ready_coherent(slot, now);
            self.popped().lemma_made_ready_tidy(slot, now);
        }
    }
}

impl Sched {
    /// Hands over from `current` to the next ready task, if there is one.
    pub fn take_yield_target(&mut self, current: usize, now: u64) -> (r: Option<usize>)
        requires
            old(self).wf(),
            old(self)@.coherent(),
            current < TASK_SLOT_COUNT,
            old(self)@.task(current).state == State::Running,
        ensures
            final(self).wf(),
            final(self)@.coherent(),
            (final(self)@, r) == old(self)@.yielded(current, now),
            r is Some ==> r->0 < TASK_SLOT_COUNT,
    {
        proof {
            self@.lemma_yielded(current, now);
        }
        let next: usize = self.ready_pop();
        if next == NIL {
            return None;
        }
        self.make_ready(current, now);
        Some(next)
    }

    /// Whether a ready task may take over from the current one.
    pub(crate) fn takeover_is_due(&self, allow_equal_priority: bool) -> (r: bool)
        requires
            self.wf(),
        ensures
            r == self@.takeover_due(allow_equal_priority),
    {
        let ghost m0 = self@;
        let current: usize = self.current;
        proof {
            assert(m0.tasks[current as int] == self.tasks@[current as int].unlinked());
            assert(m0.tasks[current as int].priority < 32);
            m0.lemma_first_ready(0);
        }
        if self.tasks[current].state != State::Running || self.tasks[current].scheduler_lock_depth
            != 0 {
            return false;
        }
        let equal: usize = if allow_equal_priority {
            1
        } else {
            0
        };
        let by_priority: usize = self.tasks[current].priority as usize + equal;
        let end: usize = match self.policy {
            Some(SchedulingPolicy::Cooperative) => 0,
            Some(SchedulingPolicy::Priority) => by_priority,
            None => {
                if current == IDLE_SLOT {
                    PRIORITY_LEVELS
                } else {
                    match self.tasks[current].run_policy {
                        RunPolicy::Preemptive { time_slice: _ } => by_priority,
                        _ => 0,
                    }
                }
            },
        };
        assert(end == m0.takeover_bound(allow_equal_priority));
        let mut level: usize = 0;
        let mut due = false;
        while level < end
            invariant
                self.wf(),
                self@ == m0,
                level <= end <= 32,
                due == exists|p: int| 0 <= p < level && (#[trigger] m0.queues[p]).len() > 0,
            decreases end - level,
        {
            if self.level_occupied(level) {
                due = true;
                assert(m0.queues[level as int].len() > 0);
            }
            level = level + 1;
        }
        due
    }

    /// Takes a ready task that may take over from the current one, if there is one.
    pub fn take_reschedule_target(&mut self, allow_equal_priority: bool, now: u64) -> (r: Option<
        (usize, usize),
    >)
        requires
            old(self).wf(),
            old(self)@.coherent(),
        ensures
            final(self).wf(),
            final(self)@.coherent(),
            (final(self)@, r) == old(self)@.rescheduled(allow_equal_priority, now),
            r is Some ==> (r->0).0 < TASK_SLOT_COUNT && (r->0).1 < TASK_SLOT_COUNT,
    {
        proof {
            self@.lemma_rescheduled(allow_equal_priority, now);
        }
        if !self.takeover_is_due(allow_equal_priority) {
            return None;
        }
        let current: usize = self.current;
        let next: usize = self.ready_pop();
        self.make_ready(current, now);
        Some((current, next))
    }

    /// Takes a task of a better priority that may take over from the current one.
    pub fn take_preemption_target(&mut self, now: u64) -> (r: Option<(usize, usize)>)
        requires
            old(self).wf(),
            old(self)@.coherent(),
        ensures
            final(self).wf(),
            final(self)@.coherent(),
            (final(self)@, r) == old(self)@.rescheduled(false, now),
            r is Some ==> (r->0).0 < TASK_SLOT_COUNT && (r->0).1 < TASK_SLOT_COUNT,
    {
        self.take_reschedule_target(false, now)
    }
}

} // verus!
