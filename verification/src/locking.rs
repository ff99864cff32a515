//! Acquiring and releasing mutexes, and cancelling waits.
use vstd::prelude::*;
use crate::config::{IDLE_SLOT, NIL, TASK_SLOT_COUNT};
use crate::donation;
use crate::error::{DriverError, WaitCancellationOutcome};
use crate::model::SchedModel;
use crate::scheduler::Sched;
use crate::semaphore;
use crate::semaphore::WaitStep;
use crate::task::{State, Tcb};

verus! {

impl SchedModel {
    /// Looking along the chain of owners from `start`, within `fuel` tasks, finds
    /// `sought` or no end.
    pub open spec fn chain_contains(self, start: usize, sought: usize, fuel: nat) -> bool
        decreases fuel,
    {
        fuel == 0 || start == sought || match self.blocker(start) {
            Some(owner) => self.chain_contains(owner, sought, (fuel - 1) as nat),
            None => false,
        }
    }

    /// The current task parks on a mutex without donating yet.
    pub open spec fn mutex_parked(self, mutex: int, wake_at: u64) -> SchedModel {
        let t = self.task(self.current);
        self.with_task(
            self.current,
            Tcb {
                state: State::Blocked,
                wake_at,
                waiting_mutex: (mutex + 1) as usize,
                sem_granted: false,
                ..t
            },
        ).enqueued(64 + mutex, self.current)
    }

    /// The current task parks on a mutex and donates its priority to the owner.
    pub open spec fn mutex_blocked(self, mutex: int, wake_at: u64) -> SchedModel {
        self.mutex_parked(mutex, wake_at).inheritance_added(
            self.mutex_owner[mutex],
            self.task(self.current).priority,
        )
    }

    /// Acquiring a mutex: take it, take it again, give up at once, fail, or park.
    pub open spec fn mutex_lock(self, mutex: int, timeout_ms: u32, now: u64, delivery: bool) -> (
        SchedModel,
        Result<WaitStep, DriverError>,
    ) {
        let owner = self.mutex_owner[mutex];
        if owner == self.current {
            if self.mutex_depth[mutex] == u32::MAX {
                (self, Err(DriverError::Runtime))
            } else {
                (
                    self.with_mutex(mutex, owner, (self.mutex_depth[mutex] + 1) as u32),
                    Ok(WaitStep::Acquired),
                )
            }
        } else if owner == NIL {
            (self.with_mutex(mutex, self.current, 1), Ok(WaitStep::Acquired))
        } else if timeout_ms == 0 {
            (self, Ok(WaitStep::TimedOut))
        } else if !delivery || self.task(self.current).scheduler_lock_depth != 0
            || self.chain_contains(owner, self.current, TASK_SLOT_COUNT as nat) {
            (self, Err(DriverError::InvalidContext))
        } else {
            (
                self.mutex_blocked(mutex, semaphore::wait_deadline(timeout_ms, now)),
                Ok(WaitStep::Blocked(self.current)),
            )
        }
    }

    /// Only the owner may release, and only the last release lets go.
    pub open spec fn mutex_unlock(self, mutex: int, now: u64) -> (
        SchedModel,
        Result<bool, DriverError>,
    ) {
        let depth = self.mutex_depth[mutex];
        if self.mutex_owner[mutex] != self.current || depth == 0 {
            (self, Err(DriverError::InvalidContext))
        } else {
            let m = self.with_mutex(mutex, self.current, (depth - 1) as u32);
            if depth == 1 {
                (m.mutex_released(mutex, self.current, now), Ok(true))
            } else {
                (m, Ok(false))
            }
        }
    }

    /// Cancelling whatever `slot` waits for, or has been granted but not yet
    /// noticed.
    pub open spec fn wait_cancelled(self, slot: usize, now: u64) -> (
        SchedModel,
        WaitCancellationOutcome,
    ) {
        let t = self.task(slot);
        if t.waiting_sem != 0 {
            (self.sem_wait_left(slot).made_ready(slot, now), WaitCancellationOutcome::Cancelled)
        } else if t.waiting_mutex != 0 {
            (self.mutex_wait_left(slot).made_ready(slot, now), WaitCancellationOutcome::Cancelled)
        } else if t.granted_sem != 0 {
            (
                self.with_task(slot, Tcb { granted_sem: 0, sem_granted: false, ..t }).sem_released(
                    t.granted_sem - 1,
                    now,
                ),
                WaitCancellationOutcome::Cancelled,
            )
        } else if t.granted_mutex != 0 {
            let mutex = t.granted_mutex - 1;
            (
                self.with_task(slot, Tcb { granted_mutex: 0, sem_granted: false, ..t }).with_mutex(
                    mutex,
                    slot,
                    0,
                ).mutex_released(mutex, slot, now),
                WaitCancellationOutcome::Cancelled,
            )
        } else {
            (self, WaitCancellationOutcome::NotWaiting)
        }
    }

    /// The current task takes note of how its wait for a semaphore ended.
    pub open spec fn sem_grant_consumed(self) -> SchedModel {
        self.with_task(
            self.current,
            Tcb { sem_granted: false, granted_sem: 0, ..self.task(self.current) },
        )
    }

    /// The current task takes note of how its wait for a mutex ended.
    pub open spec fn mutex_grant_consumed(self) -> SchedModel {
        self.with_task(
            self.current,
            Tcb { sem_granted: false, granted_mutex: 0, ..self.task(self.current) },
        )
    }

    proof fn lemma_hits_contains(self, start: usize, sought: usize, fuel: nat)
        requires
            self.chain_hits(start, sought, fuel),
        ensures
            self.chain_contains(start, sought, fuel),
        decreases fuel,
    {
        if start != sought {
            let owner = self.blocker(start)->0;
            self.lemma_hits_contains(owner, sought, (fuel - 1) as nat);
        }
    }

    /// A waiting task is blocked and a queued ready task is ready.
    pub(crate) proof fn lemma_ready_queued_is_ready(self, slot: usize)
        requires
            self.coherent(),
            slot < TASK_SLOT_COUNT,
        ensures
            self.ready_queued(slot) ==> self.task(slot).state == State::Ready,
            self.task(slot).waiting_sem != 0 || self.task(slot).waiting_mutex != 0 ==> self.task(
                slot,
            ).state == State::Blocked,
    {
        assert(self.tasks[slot as int].priority < 32);
        let key = self.ready_key(slot);
        if self.queues[key].contains(slot) {
            assert(key == self.home(slot));
        }
    }

    /// Nobody waits for, or has been handed, a mutex without an owner.
    pub(crate) proof fn lemma_unowned(self, mutex: int)
        requires
            self.coherent(),
            0 <= mutex < 32,
            self.mutex_owner[mutex] == NIL,
        ensures
            self.mutex_waiters(mutex).len() == 0,
            forall|slot: usize|
                slot < TASK_SLOT_COUNT ==> (#[trigger] self.task(slot)).granted_mutex != mutex + 1,
    {
        let s = self.queues[64 + mutex];
        if s.len() > 0 {
            let w = s[0];
            assert(s.contains(w));
            assert(self.home(w) == 64 + mutex);
            assert(self.tasks[w as int].waiting_sem <= 32);
            assert(self.tasks[w as int].waiting_sem == 0 || self.tasks[w as int].waiting_mutex == 0);
            assert(self.task(w).waiting_mutex == mutex + 1);
        }
        assert forall|slot: usize| slot < TASK_SLOT_COUNT implies (
        #[trigger] self.task(slot)).granted_mutex != mutex + 1 by {}
    }

    proof fn lemma_mutex_parked(self, mutex: int, wake_at: u64)
        requires
            self.coherent(),
            0 <= mutex < 32,
            self.loose(self.current),
            self.task(self.current).waiting_sem == 0,
            self.task(self.current).waiting_mutex == 0,
            self.mutex_owner[mutex] != NIL,
        ensures
            ({
                let n = self.mutex_parked(mutex, wake_at);
                let cur = self.current;
                &&& n.sound()
                &&& n.sems_live()
                &&& n.waits_live()
                &&& n.grants_live()
                &&& n.waits_owned()
                &&& n.queues[64 + mutex].contains(cur)
                &&& self.same_waits_but(n, cur)
                &&& forall|x: usize|
                    x < TASK_SLOT_COUNT && x != cur ==> #[trigger] n.task(x) == self.task(x)
                &&& self.tidy() ==> n.tidy()
            }),
    {
        let cur = self.current;
        let t = self.task(cur);
        let queue = 64 + mutex;
        let t2 = Tcb {
            state: State::Blocked,
            wake_at,
            waiting_mutex: (mutex + 1) as usize,
            sem_granted: false,
            ..t
        };
        assert(self.tasks[cur as int].priority < 32);
        let m = self.with_task(cur, t2);
        let n = self.mutex_parked(mutex, wake_at);
        self.lemma_fits_with_task(cur, t2);
        assert(m.loose(cur)) by {
            assert forall|q: int| 0 <= q < 96 implies !(#[trigger] m.queues[q]).contains(cur) by {
                assert(!self.queues[q].contains(cur));
            }
        }
        assert(m.distinct());
        assert(!m.queues[queue].contains(cur));
        m.lemma_enqueued_distinct(queue, cur);
        m.lemma_enqueued_members(queue, cur);
        assert(n.queues[queue].contains(cur));
        assert forall|x: usize| x < TASK_SLOT_COUNT && x != cur implies #[trigger] n.task(x)
            == self.task(x) by {}
        assert forall|q: int, x: usize|
            #![trigger n.queues[q].contains(x)]
            0 <= q < 96 && n.queues[q].contains(x) implies n.seated(q, x) by {
            if x != cur {
                assert(self.queues[q].contains(x)) by {
                    if q == queue {
                        assert(m.enqueued(queue, cur).queues[queue].contains(x) <==> (x == cur
                            || m.queues[queue].contains(x)));
                    }
                }
                assert(n.task(x) == self.task(x));
            } else if q != queue {
                assert(!self.queues[q].contains(cur));
            }
        }
        assert(n.waits_once()) by {
            assert forall|i: int| 0 <= i < TASK_SLOT_COUNT implies (
            #[trigger] n.tasks[i]).waiting_sem == 0 || n.tasks[i].waiting_mutex == 0 by {
                assert(self.tasks[i].waiting_sem == 0 || self.tasks[i].waiting_mutex == 0);
            }
        }
        assert forall|x: usize| x < TASK_SLOT_COUNT && x != cur && self.task(x).waiting_mutex
            != 0 implies (#[trigger] n.queues[64 + self.task(x).waiting_mutex - 1].contains(x)
            <==> self.queues[64 + self.task(x).waiting_mutex - 1].contains(x)) by {
            assert(self.tasks[x as int].waiting_mutex <= 32);
            if self.task(x).waiting_mutex == mutex + 1 {
                assert(m.enqueued(queue, cur).queues[queue].contains(x) <==> (x == cur
                    || m.queues[queue].contains(x)));
            }
        }
        assert(n.waits_live()) by {
            assert forall|x: usize| x < TASK_SLOT_COUNT implies {
                let t = #[trigger] n.task(x);
                &&& t.waiting_sem != 0 ==> t.state == State::Blocked && n.queues[32 + t.waiting_sem
                    - 1].contains(x)
                &&& t.waiting_mutex != 0 ==> t.state == State::Blocked && n.queues[64
                    + t.waiting_mutex - 1].contains(x)
            } by {
                if x != cur {
                    assert(n.task(x) == self.task(x));
                    assert(self.tasks[x as int].waiting_sem <= 32);
                    if self.task(x).waiting_mutex != 0 {
                        assert(n.queues[64 + self.task(x).waiting_mutex - 1].contains(x)
                            <==> self.queues[64 + self.task(x).waiting_mutex - 1].contains(x));
                    }
                }
            }
        }
        n.lemma_waits_sems();
        assert forall|slot: usize|
            slot < TASK_SLOT_COUNT && (#[trigger] n.task(slot)).granted_mutex
                != 0 implies n.mutex_owner[n.task(slot).granted_mutex - 1] == slot by {
            assert(self.task(slot).granted_mutex != 0);
        }
        assert forall|slot: usize|
            slot < TASK_SLOT_COUNT && (#[trigger] n.task(slot)).waiting_mutex
                != 0 implies n.mutex_owner[n.task(slot).waiting_mutex - 1] != NIL by {
            if slot != cur {
                assert(self.task(slot).waiting_mutex != 0);
            }
        }
        if self.tidy() {
            self.lemma_tidy_frame(m);
            assert forall|x: usize| x < TASK_SLOT_COUNT implies #[trigger] n.settled(x) by {
                assert(m.settled(x));
                assert(n.task(x) == m.task(x));
            }
            assert forall|q: int| 32 <= q < 96 implies #[trigger] n.by_priority(q) by {
                assert(m.by_priority(q));
                if q == queue {
                    donation::lemma_enqueued_ordered(m.tasks, m.queues[queue], cur);
                }
            }
            if self.policy is None {
                assert forall|q: int| 0 <= q < 32 implies !(#[trigger] n.queues[q]).contains(
                    IDLE_SLOT,
                ) by {
                    assert(!self.queues[q].contains(IDLE_SLOT));
                }
            }
        }
    }

    /// Parking on a mutex whose owner does not wait for the current task keeps the
    /// state coherent and tidy.
    #[verifier::spinoff_prover]
    #[verifier::rlimit(50)]
    pub(crate) proof fn lemma_mutex_blocked(self, mutex: int, wake_at: u64)
        requires
            self.coherent(),
            0 <= mutex < 32,
            self.loose(self.current),
            self.task(self.current).waiting_sem == 0,
            self.task(self.current).waiting_mutex == 0,
            self.mutex_owner[mutex] != NIL,
            self.mutex_owner[mutex] != self.current,
            !self.chain_contains(
                self.mutex_owner[mutex],
                self.current,
                TASK_SLOT_COUNT as nat,
            ),
        ensures
            ({
                let m = self.mutex_parked(mutex, wake_at);
                let owner = self.mutex_owner[mutex];
                let p = self.task(self.current).priority;
                &&& m.sound()
                &&& owner < TASK_SLOT_COUNT
                &&& m.donations(owner, p) < u8::MAX
                &&& m.donated(owner, p).refreshable(owner, TASK_SLOT_COUNT as nat)
            }),
            self.mutex_blocked(mutex, wake_at).coherent(),
            self.tidy() ==> self.mutex_blocked(mutex, wake_at).tidy(),
    {
        let cur = self.current;
        let owner = self.mutex_owner[mutex];
        let p = self.task(cur).priority;
        let fuel = TASK_SLOT_COUNT as nat;
        assert(owner < TASK_SLOT_COUNT);
        assert(self.tasks[cur as int].priority < 32);
        self.lemma_mutex_parked(mutex, wake_at);
        let m = self.mutex_parked(mutex, wake_at);
        assert(m.task(owner) == self.task(owner));
        self.lemma_donors_bound(owner, p);
        assert(self.donations(owner, p) == self.donors(owner, p));
        let amount = (m.donations(owner, p) + 1) as u8;
        let d = m.donated(owner, p);
        let base = m.with_diagnostics(d.diagnostics);
        m.lemma_sound_frame(base);
        assert(d =~= base.with_donations(owner, p, amount));
        base.lemma_with_donations_kin(owner, p, amount);
        assert(base.sems_live()) by {
            assert forall|y: usize|
                y < TASK_SLOT_COUNT && (#[trigger] base.task(y)).waiting_sem != 0 implies {
                &&& base.queues[32 + base.task(y).waiting_sem - 1].contains(y)
                &&& base.task(y).state != State::Ready
            } by {
                assert(m.task(y).waiting_sem != 0);
            }
        }
        base.lemma_kin_sems(d);
        // The new donor is counted.
        assert forall|o: usize, level: u8|
            o < TASK_SLOT_COUNT && level < 32 implies #[trigger] d.donations(o, level) == d.donors(
            o,
            level,
        ) by {
            assert(self.donations(o, level) == self.donors(o, level));
            assert forall|x: usize| x < TASK_SLOT_COUNT && x != cur implies #[trigger] self.donates(
                x,
                o,
                level,
            ) == d.donates(x, o, level) by {
                assert(m.task(x) == self.task(x));
                assert(d.task(x).waiting_mutex == m.task(x).waiting_mutex);
                assert(d.task(x).priority == m.task(x).priority);
                assert(self.tasks[x as int].waiting_mutex <= 32);
            }
            self.lemma_donors_change(d, cur, o, level);
            assert(d.task(cur).waiting_mutex == mutex + 1);
            assert(d.task(cur).priority == p);
            assert(d.queues[64 + mutex].contains(cur));
            assert(d.donates(cur, o, level) == (o == owner && level == p));
            assert(!self.donates(cur, o, level));
            if o != cur {
                assert(m.task(o) == self.task(o));
            }
        }
        // The owner's chain does not come back to the new waiter.
        assert(!self.chain_hits(owner, cur, fuel)) by {
            if self.chain_hits(owner, cur, fuel) {
                self.lemma_hits_contains(owner, cur, fuel);
            }
        }
        assert(self.same_waits_but(d, cur)) by {
            assert forall|x: usize| x < TASK_SLOT_COUNT && x != cur implies {
                &&& (#[trigger] d.task(x)).waiting_mutex == self.task(x).waiting_mutex
                &&& self.task(x).waiting_mutex != 0 ==> (d.queues[64 + self.task(x).waiting_mutex
                    - 1].contains(x) <==> self.queues[64 + self.task(x).waiting_mutex
                    - 1].contains(x))
            } by {
                assert(m.task(x) == self.task(x));
                assert(self.tasks[x as int].waiting_mutex <= 32);
            }
        }
        assert(self.chain_live(owner, fuel));
        self.lemma_chain_avoids(d, cur, owner, fuel);
        assert(d.chain_live(cur, fuel + 1)) by {
            assert(d.task(cur).waiting_mutex == mutex + 1);
            assert(d.blocker(cur) == Some(owner));
            assert((fuel + 1 - 1) as nat == fuel);
        }
        self.lemma_still_acyclic(d, cur, fuel + 1);
        assert(d.waits_live()) by {
            assert forall|x: usize| x < TASK_SLOT_COUNT implies {
                let t = #[trigger] d.task(x);
                &&& t.waiting_sem != 0 ==> t.state == State::Blocked && d.queues[32 + t.waiting_sem
                    - 1].contains(x)
                &&& t.waiting_mutex != 0 ==> t.state == State::Blocked && d.queues[64
                    + t.waiting_mutex - 1].contains(x)
            } by {
                let u = m.task(x);
                assert(d.task(x).waiting_sem == u.waiting_sem);
            }
        }
        assert forall|x: usize| x < TASK_SLOT_COUNT implies {
            &&& (#[trigger] d.task(x)).granted_mutex == m.task(x).granted_mutex
            &&& d.task(x).waiting_mutex == m.task(x).waiting_mutex
        } by {}
        m.lemma_grants_frame(d);
        d.lemma_refreshed(owner, fuel);
        let n = self.mutex_blocked(mutex, wake_at);
        assert(n == d.refreshed(owner, fuel));
        d.lemma_kin_coherent(n);
        if self.tidy() {
            m.lemma_tidy_frame_priorities(d);
            assert forall|x: usize| x < TASK_SLOT_COUNT && x != owner implies #[trigger] d.settled(
                x,
            ) by {
                assert(m.settled(x));
                assert(d.task(x) == m.task(x));
            }
            assert(d.idle_unqueued()) by {
                if d.policy is None {
                    assert forall|q: int| 0 <= q < 32 implies !(#[trigger] d.queues[q]).contains(
                        IDLE_SLOT,
                    ) by {
                        assert(!m.queues[q].contains(IDLE_SLOT));
                    }
                }
            }
            d.lemma_kin_idle(n);
        }
    }
}

impl Sched {
    /// Whether the chain of mutex owners from `owner` leads to `sought`.
    pub fn mutex_chain_contains(&self, owner: usize, sought: usize) -> (r: bool)
        requires
            self.wf(),
            owner < TASK_SLOT_COUNT,
        ensures
            r == self@.chain_contains(owner, sought, TASK_SLOT_COUNT as nat),
    {
        let mut at: usize = owner;
        let mut seen: usize = 0;
        while seen < TASK_SLOT_COUNT
            invariant
                self.wf(),
                at < TASK_SLOT_COUNT,
                seen <= TASK_SLOT_COUNT,
                self@.chain_contains(owner, sought, TASK_SLOT_COUNT as nat) == self@.chain_contains(
                    at,
                    sought,
                    (TASK_SLOT_COUNT - seen) as nat,
                ),
            decreases TASK_SLOT_COUNT - seen,
        {
            if at == sought {
                return true;
            }
            assert(self@.tasks[at as int] == self.tasks@[at as int].unlinked());
            assert(self@.tasks[at as int].waiting_mutex <= 32);
            let waiting: usize = self.tasks[at].waiting_mutex;
            if waiting == 0 {
                return false;
            }
            let next: usize = self.mutexes[waiting - 1].owner;
            assert(next == self@.mutex_owner[waiting - 1]);
            if next == NIL {
                return false;
            }
            at = next;
            seen = seen + 1;
        }
        true
    }

    /// Takes a mutex, or parks the current task on it.
    ///
    /// `delivery` tells whether a switch away from the current task can be
    /// delivered.
    pub fn mutex_lock(&mut self, mutex: usize, timeout_ms: u32, now: u64, delivery: bool) -> (r:
        Result<WaitStep, DriverError>)
        requires
            old(self).wf(),
            old(self)@.coherent(),
            mutex < 32,
            old(self)@.mutex_owner[mutex as int] != NIL && timeout_ms != 0 && delivery
                ==> old(self)@.task(old(self)@.current).state == State::Running,
        ensures
            final(self).wf(),
            final(self)@.coherent(),
            (final(self)@, r) == old(self)@.mutex_lock(mutex as int, timeout_ms, now, delivery),
    {
        let ghost m0 = self@;
        let ghost x = mutex as int;
        let current: usize = self.current;
        proof {
            if m0.task(m0.current).state == State::Running {
                m0.lemma_unqueued_when_idle_state(m0.current);
            }
            assert(m0.tasks[current as int] == self.tasks@[current as int].unlinked());
            assert(m0.mutex_owner[x] == self.mutexes@[x].owner);
            assert(m0.mutex_depth[x] == self.mutexes@[x].depth);
        }
        let owner: usize = self.mutexes[mutex].owner;
        let depth: u32 = self.mutexes[mutex].depth;
        if owner == current {
            if depth == u32::MAX {
                return Err(DriverError::Runtime);
            }
            self.set_mutex(mutex, owner, depth + 1);
            proof {
                assert(self@.mutex_owner =~= m0.mutex_owner);
                m0.lemma_coherent_frame(self@);
            }
            return Ok(WaitStep::Acquired);
        }
        if owner == NIL {
            proof {
                m0.lemma_unowned(x);
                m0.lemma_owner_changed(x, current, 1);
            }
            self.set_mutex(mutex, current, 1);
            return Ok(WaitStep::Acquired);
        }
        if timeout_ms == 0 {
            return Ok(WaitStep::TimedOut);
        }
        if !delivery {
            return Err(DriverError::InvalidContext);
        }
        if self.tasks[current].scheduler_lock_depth != 0 {
            return Err(DriverError::InvalidContext);
        }
        assert(m0.mutex_owner[x] < TASK_SLOT_COUNT);
        if self.mutex_chain_contains(owner, current) {
            return Err(DriverError::InvalidContext);
        }
        let wake_at: u64 = semaphore::deadline_of(timeout_ms, now);
        proof {
            m0.lemma_mutex_blocked(x, wake_at);
            assert(m0.tasks[current as int].priority < 32);
        }
        let priority: u8 = self.tasks[current].priority;
        let mut task = self.tasks[current];
        task.state = State::Blocked;
        task.wake_at = wake_at;
        task.waiting_mutex = mutex + 1;
        task.sem_granted = false;
        self.set_task(current, task);
        proof {
            assert(self@.loose(current)) by {
                assert forall|q: int| 0 <= q < 96 implies !(#[trigger] self@.queues[q]).contains(
                    current,
                ) by {
                    assert(!m0.queues[q].contains(current));
                }
            }
        }
        self.enqueue_mutex_waiter(mutex, current);
        assert(self@ =~= m0.mutex_parked(x, wake_at));
        self.add_inheritance(owner, priority);
        Ok(WaitStep::Blocked(current))
    }

    /// Releases a mutex once and tells whether that let go of it.
    pub fn mutex_unlock(&mut self, mutex: usize, now: u64) -> (r: Result<bool, DriverError>)
        requires
            old(self).wf(),
            old(self)@.coherent(),
            mutex < 32,
            old(self)@.task(old(self)@.current).state == State::Running,
            old(self)@.task(old(self)@.current).granted_mutex == 0,
        ensures
            final(self).wf(),
            final(self)@.coherent(),
            (final(self)@, r) == old(self)@.mutex_unlock(mutex as int, now),
    {
        let ghost m0 = self@;
        let ghost x = mutex as int;
        let current: usize = self.current;
        proof {
            m0.lemma_unqueued_when_idle_state(m0.current);
            assert(m0.tasks[current as int] == self.tasks@[current as int].unlinked());
            assert(m0.mutex_owner[x] == self.mutexes@[x].owner);
            assert(m0.mutex_depth[x] == self.mutexes@[x].depth);
        }
        let owner: usize = self.mutexes[mutex].owner;
        let depth: u32 = self.mutexes[mutex].depth;
        if owner != current || depth == 0 {
            return Err(DriverError::InvalidContext);
        }
        self.set_mutex(mutex, current, depth - 1);
        proof {
            assert(self@.mutex_owner =~= m0.mutex_owner);
            m0.lemma_coherent_frame(self@);
        }
        if depth != 1 {
            return Ok(false);
        }
        self.release_mutex_locked(mutex, current, now);
        Ok(true)
    }

    /// Ends the wait of a task without a grant, or gives back a grant that it has
    /// not noticed yet.
    pub fn cancel_wait_locked(&mut self, task: usize, now: u64) -> (r: WaitCancellationOutcome)
        requires
            old(self).wf(),
            old(self)@.coherent(),
            task < TASK_SLOT_COUNT,
            old(self)@.task(task).granted_sem != 0 ==> old(self)@.sem_releasable(
                old(self)@.task(task).granted_sem - 1,
            ),
        ensures
            final(self).wf(),
            final(self)@.coherent(),
            (final(self)@, r) == old(self)@.wait_cancelled(task, now),
    {
        let ghost m0 = self@;
        proof {
            assert(m0.tasks[task as int] == self.tasks@[task as int].unlinked());
            assert(m0.tasks[task as int].granted_sem <= 32);
        }
        if self.tasks[task].waiting_sem != 0 {
            proof {
                m0.lemma_sem_wait_left(task);
                assert(m0.tasks[task as int].waiting_sem == 0 || m0.tasks[task as int].waiting_mutex
                    == 0);
                m0.sem_wait_left(task).lemma_made_ready_coherent(task, now);
            }
            self.leave_semaphore(task);
            self.make_ready(task, now);
            return WaitCancellationOutcome::Cancelled;
        }
        if self.tasks[task].waiting_mutex != 0 {
            proof {
                m0.lemma_mutex_wait_left(task);
                m0.mutex_wait_left(task).lemma_made_ready_coherent(task, now);
            }
            self.leave_mutex(task);
            self.make_ready(task, now);
            return WaitCancellationOutcome::Cancelled;
        }
        let granted_sem: usize = self.tasks[task].granted_sem;
        if granted_sem != 0 {
            let mut block = self.tasks[task];
            block.granted_sem = 0;
            block.sem_granted = false;
            proof {
                assert(m0.tasks[task as int].base_priority < 32);
                m0.lemma_ready_queued_is_ready(task);
                m0.lemma_tweak_coherent(task, block.unlinked());
            }
            self.set_task(task, block);
            self.release_semaphore_locked(granted_sem - 1, now);
            return WaitCancellationOutcome::Cancelled;
        }
        let granted_mutex: usize = self.tasks[task].granted_mutex;
        if granted_mutex != 0 {
            let mutex: usize = granted_mutex - 1;
            let mut block = self.tasks[task];
            block.granted_mutex = 0;
            block.sem_granted = false;
            proof {
                assert(m0.tasks[task as int].base_priority < 32);
                m0.lemma_ready_queued_is_ready(task);
                m0.lemma_tweak_coherent(task, block.unlinked());
                assert(m0.mutex_owner[mutex as int] == task);
            }
            self.set_task(task, block);
            let ghost m1 = self@;
            self.set_mutex(mutex, task, 0);
            proof {
                assert(self@.mutex_owner =~= m1.mutex_owner);
                m1.lemma_coherent_frame(self@);
            }
            self.release_mutex_locked(mutex, task, now);
            return WaitCancellationOutcome::Cancelled;
        }
        WaitCancellationOutcome::NotWaiting
    }

    /// Notes how the current task's wait for a semaphore ended: whether it was
    /// granted.
    pub fn consume_semaphore_grant(&mut self) -> (r: bool)
        requires
            old(self).wf(),
            old(self)@.coherent(),
        ensures
            final(self).wf(),
            final(self)@.coherent(),
            final(self)@ == old(self)@.sem_grant_consumed(),
            r == old(self)@.task(old(self)@.current).sem_granted,
    {
        let ghost m0 = self@;
        let current: usize = self.current;
        let mut block = self.tasks[current];
        let granted = block.sem_granted;
        block.sem_granted = false;
        block.granted_sem = 0;
        proof {
            assert(m0.tasks[current as int] == self.tasks@[current as int].unlinked());
            assert(m0.tasks[current as int].base_priority < 32);
            m0.lemma_ready_queued_is_ready(current);
            m0.lemma_tweak_coherent(current, block.unlinked());
        }
        self.set_task(current, block);
        granted
    }

    /// Notes how the current task's wait for a mutex ended: whether it owns it.
    pub fn consume_mutex_grant(&mut self) -> (r: bool)
        requires
            old(self).wf(),
            old(self)@.coherent(),
        ensures
            final(self).wf(),
            final(self)@.coherent(),
            final(self)@ == old(self)@.mutex_grant_consumed(),
            r == old(self)@.task(old(self)@.current).sem_granted,
    {
        let ghost m0 = self@;
        let current: usize = self.current;
        let mut block = self.tasks[current];
        let granted = block.sem_granted;
        block.sem_granted = false;
        block.granted_mutex = 0;
        proof {
            assert(m0.tasks[current as int] == self.tasks@[current as int].unlinked());
            assert(m0.tasks[current as int].base_priority < 32);
            m0.lemma_ready_queued_is_ready(current);
            m0.lemma_tweak_coherent(current, block.unlinked());
        }
        self.set_task(current, block);
        granted
    }
}

} // verus!
