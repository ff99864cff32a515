//! Counting semaphores with direct handoff.
use vstd::prelude::*;
use crate::config::{Diagnostics, IDLE_SLOT, NIL, TASK_SLOT_COUNT};
use crate::donation;
use crate::error::DriverError;
use crate::metrics;
use crate::metrics::bump;
use crate::model::SchedModel;
use crate::scheduler::Sched;
use crate::scheduling;
use crate::task::{State, Tcb};

verus! {

/// How far an acquisition got without switching tasks.
#[derive(Clone, Copy, Debug, Eq, PartialEq, Structural)]
pub enum WaitStep {
    /// The object was taken at once.
    Acquired,
    /// Nothing was available and the caller did not want to wait.
    TimedOut,
    /// The task in this slot is parked until a grant or its deadline.
    Blocked(usize),
}

/// The deadline of a wait of `timeout_ms` that starts at `now`; zero is never.
pub open spec fn wait_deadline(timeout_ms: u32, now: u64) -> u64 {
    if timeout_ms == u32::MAX {
        0
    } else {
        scheduling::clock_add(now as int, timeout_ms as int)
    }
}

pub(crate) fn deadline_of(timeout_ms: u32, now: u64) -> (r: u64)
    ensures
        r == wait_deadline(timeout_ms, now),
{
    if timeout_ms == u32::MAX {
        0
    } else {
        now.saturating_add(timeout_ms as u64)
    }
}

impl SchedModel {
    /// The current task parks on a semaphore.
    pub open spec fn sem_blocked(self, sem: int, wake_at: u64) -> SchedModel {
        let t = self.task(self.current);
        self.with_diagnostics(
            Diagnostics {
                semaphore_blocks: metrics::bumped(self.diagnostics.semaphore_blocks),
                ..self.diagnostics
            },
        ).with_task(
            self.current,
            Tcb {
                state: State::Blocked,
                wake_at,
                waiting_sem: (sem + 1) as usize,
                sem_granted: false,
                ..t
            },
        ).enqueued(32 + sem, self.current)
    }

    /// Acquiring a semaphore: take a count, give up at once, fail, or park.
    pub open spec fn sem_down(self, sem: int, timeout_ms: u32, now: u64, delivery: bool) -> (
        SchedModel,
        Result<WaitStep, DriverError>,
    ) {
        if self.sem_counts[sem] > 0 {
            (
                SchedModel {
                    sem_counts: self.sem_counts.update(sem, (self.sem_counts[sem] - 1) as i32),
                    ..self
                },
                Ok(WaitStep::Acquired),
            )
        } else if timeout_ms == 0 {
            (self, Ok(WaitStep::TimedOut))
        } else if !delivery || self.task(self.current).scheduler_lock_depth != 0 {
            (self, Err(DriverError::InvalidContext))
        } else {
            (
                self.sem_blocked(sem, wait_deadline(timeout_ms, now)),
                Ok(WaitStep::Blocked(self.current)),
            )
        }
    }

    /// The best waiter of a semaphore receives a grant.
    pub open spec fn sem_granted(self, sem: int, now: u64) -> SchedModel {
        let waiter = self.sem_waiters(sem)[0];
        let t = self.task(waiter);
        let m = self.dequeued(32 + sem, waiter).with_task(
            waiter,
            Tcb {
                wake_at: 0,
                granted_sem: t.waiting_sem,
                waiting_sem: 0,
                sem_granted: true,
                ..t
            },
        ).made_ready(waiter, now);
        m.with_diagnostics(
            Diagnostics {
                semaphore_wakes: metrics::bumped(self.diagnostics.semaphore_wakes),
                ..self.diagnostics
            },
        )
    }

    /// Releasing a semaphore: grant to the best waiter, or count.
    pub open spec fn sem_released(self, sem: int, now: u64) -> SchedModel {
        if self.sem_waiters(sem).len() == 0 {
            SchedModel {
                sem_counts: self.sem_counts.update(sem, (self.sem_counts[sem] + 1) as i32),
                ..self
            }
        } else {
            self.sem_granted(sem, now)
        }
    }

    /// A release can be counted or granted.
    pub open spec fn sem_releasable(self, sem: int) -> bool {
        self.sem_waiters(sem).len() > 0 || self.sem_counts[sem] < i32::MAX
    }

    pub(crate) proof fn lemma_sem_blocked(self, sem: int, wake_at: u64)
        requires
            self.coherent(),
            0 <= sem < 32,
            self.loose(self.current),
            self.task(self.current).waiting_sem == 0,
            self.task(self.current).waiting_mutex == 0,
        ensures
            self.sem_blocked(sem, wake_at).coherent(),
            self.tidy() ==> self.sem_blocked(sem, wake_at).tidy(),
    {
        let cur = self.current;
        let t = self.task(cur);
        let queue = 32 + sem;
        let t2 = Tcb {
            state: State::Blocked,
            wake_at,
            waiting_sem: (sem + 1) as usize,
            sem_granted: false,
            ..t
        };
        assert(self.tasks[cur as int].priority < 32);
        let n = self.sem_blocked(sem, wake_at);
        let m = self.with_diagnostics(
            Diagnostics {
                semaphore_blocks: metrics::bumped(self.diagnostics.semaphore_blocks),
                ..self.diagnostics
            },
        ).with_task(cur, t2);
        self.with_diagnostics(
            Diagnostics {
                semaphore_blocks: metrics::bumped(self.diagnostics.semaphore_blocks),
                ..self.diagnostics
            },
        ).lemma_fits_with_task(cur, t2);
        assert(m.loose(cur)) by {
            assert forall|q: int| 0 <= q < 96 implies !(#[trigger] m.queues[q]).contains(cur) by {
                assert(!self.queues[q].contains(cur));
            }
        }
        assert(m.distinct());
        assert(!m.queues[queue].contains(cur));
        m.lemma_enqueued_distinct(queue, cur);
        m.lemma_enqueued_members(queue, cur);
        assert forall|q: int, x: usize|
            #![trigger n.queues[q].contains(x)]
            0 <= q < 96 && n.queues[q].contains(x) implies n.seated(q, x) by {
            if x != cur {
                assert(self.queues[q].contains(x)) by {
                    if q == queue {
                        assert(m.enqueued(queue, cur).queues[queue].contains(x) <==> (x == cur
                            || m.queues[queue].contains(x)));
                    }
                }
                assert(n.task(x) == self.task(x));
            } else if q != queue {
                assert(!self.queues[q].contains(cur));
            }
        }
        assert(n.waits_once()) by {
            assert forall|i: int| 0 <= i < TASK_SLOT_COUNT implies (
            #[trigger] n.tasks[i]).waiting_sem == 0 || n.tasks[i].waiting_mutex == 0 by {
                assert(self.tasks[i].waiting_sem == 0 || self.tasks[i].waiting_mutex == 0);
            }
        }
        assert(n.waits_live()) by {
            assert forall|x: usize| x < TASK_SLOT_COUNT implies {
                let t = #[trigger] n.task(x);
                &&& t.waiting_sem != 0 ==> t.state == State::Blocked && n.queues[32 + t.waiting_sem
                    - 1].contains(x)
                &&& t.waiting_mutex != 0 ==> t.state == State::Blocked && n.queues[64
                    + t.waiting_mutex - 1].contains(x)
            } by {
                if x == cur {
                    assert(n.queues[queue].contains(cur));
                } else {
                    assert(n.task(x) == self.task(x));
                    assert(self.tasks[x as int].waiting_sem <= 32);
                    if self.task(x).waiting_sem == sem + 1 {
                        assert(self.queues[queue].contains(x));
                        assert(n.queues[queue].contains(x));
                    }
                }
            }
        }
        assert(self.same_mutex_graph(n)) by {
            assert forall|x: usize| x < TASK_SLOT_COUNT implies {
                &&& (#[trigger] n.task(x)).waiting_mutex == self.task(x).waiting_mutex
                &&& n.task(x).priority == self.task(x).priority
                &&& n.task(x).inherited_waiters == self.task(x).inherited_waiters
                &&& self.task(x).waiting_mutex != 0 ==> (n.queues[64 + self.task(x).waiting_mutex
                    - 1].contains(x) <==> self.queues[64 + self.task(x).waiting_mutex
                    - 1].contains(x))
            } by {
                assert(self.tasks[x as int].waiting_mutex <= 32);
            }
        }
        self.lemma_grants_frame(n);
        self.lemma_same_graph(n);
        if self.tidy() {
            self.lemma_tidy_frame(m);
            assert forall|x: usize| x < TASK_SLOT_COUNT implies #[trigger] n.settled(x) by {
                assert(m.settled(x));
                assert(n.task(x) == m.task(x));
            }
            assert forall|q: int| 32 <= q < 96 implies #[trigger] n.by_priority(q) by {
                assert(m.by_priority(q));
                if q == queue {
                    donation::lemma_enqueued_ordered(m.tasks, m.queues[queue], cur);
                }
            }
            if self.policy is None {
                assert forall|q: int| 0 <= q < 32 implies !(#[trigger] n.queues[q]).contains(
                    IDLE_SLOT,
                ) by {
                    assert(!self.queues[q].contains(IDLE_SLOT));
                }
            }
        }
    }

    pub(crate) proof fn lemma_sem_granted(self, sem: int, now: u64)
        requires
            self.coherent(),
            0 <= sem < 32,
            self.sem_waiters(sem).len() > 0,
        ensures
            ({
                let waiter = self.sem_waiters(sem)[0];
                let t = self.task(waiter);
                let t2 = Tcb {
                    wake_at: 0,
                    granted_sem: t.waiting_sem,
                    waiting_sem: 0,
                    sem_granted: true,
                    ..t
                };
                let m = self.dequeued(32 + sem, waiter).with_task(waiter, t2);
                &&& waiter < TASK_SLOT_COUNT
                &&& t.waiting_sem == sem + 1
                &&& t.waiting_mutex == 0
                &&& t.state == State::Blocked
                &&& m.coherent()
                &&& m.loose(waiter)
            }),
            self.sem_granted(sem, now).coherent(),
            self.tidy() ==> self.sem_granted(sem, now).tidy(),
    {
        let queue = 32 + sem;
        let s = self.queues[queue];
        let waiter = s[0];
        assert(s.contains(waiter));
        assert(self.home(waiter) == queue);
        let t = self.task(waiter);
        assert(self.tasks[waiter as int].priority < 32);
        assert(self.tasks[waiter as int].waiting_sem == 0 || self.tasks[waiter as int].waiting_mutex
            == 0);
        assert(t.waiting_sem == sem + 1);
        let t2 = Tcb {
            wake_at: 0,
            granted_sem: t.waiting_sem,
            waiting_sem: 0,
            sem_granted: true,
            ..t
        };
        self.lemma_sem_wait_left(waiter);
        let left = self.sem_wait_left(waiter);
        let m = self.dequeued(queue, waiter).with_task(waiter, t2);
        assert(left.tasks[waiter as int].granted_mutex <= 32);
        assert(!left.queues[left.ready_key(waiter)].contains(waiter)) by {
            assert(left.tasks[waiter as int].priority < 32);
        }
        left.lemma_tweak_coherent(waiter, t2);
        assert(left.with_task(waiter, t2) =~= m);
        m.lemma_made_ready_coherent(waiter, now);
        m.lemma_made_ready_tidy(waiter, now);
        let n0 = m.made_ready(waiter, now);
        let n = self.sem_granted(sem, now);
        n0.lemma_coherent_frame(n);
        if self.tidy() {
            left.lemma_tidy_frame(m);
            n0.lemma_tidy_frame(n);
        }
    }
}

impl Sched {
    /// Takes a count, or parks the current task on the semaphore.
    ///
    /// `delivery` tells whether a switch away from the current task can be
    /// delivered.
    pub fn semaphore_down(&mut self, sem: usize, timeout_ms: u32, now: u64, delivery: bool) -> (r:
        Result<WaitStep, DriverError>)
        requires
            old(self).wf(),
            old(self)@.coherent(),
            sem < 32,
            old(self)@.sem_counts[sem as int] <= 0 && timeout_ms != 0 && delivery ==> old(self)@.task(
                old(self)@.current,
            ).state == State::Running,
        ensures
            final(self).wf(),
            final(self)@.coherent(),
            (final(self)@, r) == old(self)@.sem_down(sem as int, timeout_ms, now, delivery),
    {
        let ghost m0 = self@;
        let current: usize = self.current;
        proof {
            if m0.task(m0.current).state == State::Running {
                m0.lemma_unqueued_when_idle_state(m0.current);
            }
            assert(m0.tasks[current as int] == self.tasks@[current as int].unlinked());
            assert(m0.sem_counts[sem as int] == self.sems@[sem as int].count);
        }
        let count: i32 = self.sems[sem].count;
        if count > 0 {
            self.set_sem_count(sem, count - 1);
            proof {
                m0.lemma_coherent_frame(self@);
            }
            return Ok(WaitStep::Acquired);
        }
        if timeout_ms == 0 {
            return Ok(WaitStep::TimedOut);
        }
        if !delivery {
            return Err(DriverError::InvalidContext);
        }
        if self.tasks[current].scheduler_lock_depth != 0 {
            return Err(DriverError::InvalidContext);
        }
        let wake_at: u64 = deadline_of(timeout_ms, now);
        proof {
            m0.lemma_sem_blocked(sem as int, wake_at);
        }
        self.diagnostics.semaphore_blocks = bump(self.diagnostics.semaphore_blocks);
        let mut task = self.tasks[current];
        task.state = State::Blocked;
        task.wake_at = wake_at;
        task.waiting_sem = sem + 1;
        task.sem_granted = false;
        assert(m0.tasks[current as int].priority < 32);
        self.set_task(current, task);
        proof {
            assert(self@.loose(current)) by {
                assert forall|q: int| 0 <= q < 96 implies !(#[trigger] self@.queues[q]).contains(
                    current,
                ) by {
                    assert(!m0.queues[q].contains(current));
                }
            }
        }
        self.enqueue_waiter(sem, current);
        assert(self@ =~= m0.sem_blocked(sem as int, wake_at));
        Ok(WaitStep::Blocked(current))
    }

    /// Grants to the best waiter and returns it, or counts and returns `NIL`.
    pub fn release_semaphore_locked(&mut self, sem: usize, now: u64) -> (r: usize)
        requires
            old(self).wf(),
            old(self)@.coherent(),
            sem < 32,
            old(self)@.sem_releasable(sem as int),
        ensures
            final(self).wf(),
            final(self)@.coherent(),
            final(self)@ == old(self)@.sem_released(sem as int, now),
            r == (if old(self)@.sem_waiters(sem as int).len() == 0 {
                NIL
            } else {
                old(self)@.sem_waiters(sem as int)[0]
            }),
    {
        let ghost m0 = self@;
        assert(m0.sem_counts[sem as int] == self.sems@[sem as int].count);
        let waiter: usize = self.take_sem_waiter(sem);
        if waiter == NIL {
            proof {
                if m0.sem_waiters(sem as int).len() > 0 {
                    assert(waiter < TASK_SLOT_COUNT);
                }
            }
            let count: i32 = self.sems[sem].count;
            assert(self@.sem_counts[sem as int] == self.sems@[sem as int].count);
            self.set_sem_count(sem, count + 1);
            proof {
                m0.lemma_coherent_frame(self@);
            }
            return NIL;
        }
        proof {
            m0.lemma_sem_granted(sem as int, now);
            assert(self@.tasks[waiter as int] == self.tasks@[waiter as int].unlinked());
        }
        let mut task = self.tasks[waiter];
        task.wake_at = 0;
        task.granted_sem = task.waiting_sem;
        task.waiting_sem = 0;
        task.sem_granted = true;
        self.set_task(waiter, task);
        self.make_ready(waiter, now);
        self.diagnostics.semaphore_wakes = bump(self.diagnostics.semaphore_wakes);
        assert(self@ =~= m0.sem_granted(sem as int, now));
        waiter
    }
}

} // verus!
