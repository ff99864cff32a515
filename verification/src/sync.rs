//! Semaphores, recursive mutexes and timed waits.
use vstd::prelude::*;
use crate::config::{Diagnostics, IDLE_SLOT, NIL, TASK_SLOT_COUNT};
use crate::donation;
use crate::inheritance;
use crate::links;
use crate::metrics;
use crate::metrics::bump;
use crate::model::SchedModel;
use crate::scheduler::Sched;
use crate::task::{State, Tcb};

verus! {

impl SchedModel {
    /// The idle thread is in no ready queue.
    pub open spec fn idle_unqueued(self) -> bool {
        self.policy is None ==> forall|q: int|
            0 <= q < 32 ==> !(#[trigger] self.queues[q]).contains(IDLE_SLOT)
    }

    /// Priorities are settled, wait queues stand by priority and the idle thread is
    /// not queued.
    pub open spec fn tidy(self) -> bool {
        &&& self.all_settled()
        &&& self.all_by_priority()
        &&& self.idle_unqueued()
    }

    /// `slot` gives up waiting for its semaphore.
    pub open spec fn sem_wait_left(self, slot: usize) -> SchedModel {
        let t = self.task(slot);
        self.dequeued(32 + t.waiting_sem - 1, slot).with_task(
            slot,
            Tcb { waiting_sem: 0, sem_granted: false, wake_at: 0, ..t },
        )
    }

    /// `slot` leaves the queue of its mutex and takes its donation back.
    pub open spec fn mutex_donation_left(self, slot: usize) -> SchedModel {
        let t = self.task(slot);
        let left = self.dequeued(64 + t.waiting_mutex - 1, slot);
        let owner = self.mutex_owner[t.waiting_mutex - 1];
        if owner == NIL {
            left
        } else {
            left.inheritance_removed(owner, t.priority)
        }
    }

    /// `slot` gives up waiting for its mutex.
    pub open spec fn mutex_wait_left(self, slot: usize) -> SchedModel {
        let m = self.mutex_donation_left(slot);
        m.with_task(
            slot,
            Tcb { waiting_mutex: 0, sem_granted: false, wake_at: 0, ..m.task(slot) },
        )
    }

    /// The deadline of `slot` is over at `now`.
    pub open spec fn overdue(self, slot: usize, now: u64) -> bool {
        self.task(slot).wake_at != 0 && now >= self.task(slot).wake_at
    }

    /// Slot `slot` is examined at `now`: a sleeper whose time has come becomes
    /// ready, and a timed wait that is over ends without a grant.
    pub open spec fn woken(self, slot: usize, now: u64) -> SchedModel {
        let t = self.task(slot);
        if t.state == State::Sleeping && now >= t.wake_at {
            self.made_ready(slot, now).with_diagnostics(
                Diagnostics {
                    sleeper_wakes: metrics::bumped(self.diagnostics.sleeper_wakes),
                    ..self.diagnostics
                },
            )
        } else if t.state == State::Blocked && t.waiting_sem != 0 && self.overdue(slot, now) {
            self.sem_wait_left(slot).made_ready(slot, now).with_diagnostics(
                Diagnostics {
                    semaphore_timeouts: metrics::bumped(self.diagnostics.semaphore_timeouts),
                    ..self.diagnostics
                },
            )
        } else if t.state == State::Blocked && t.waiting_mutex != 0 && self.overdue(slot, now) {
            self.mutex_wait_left(slot).made_ready(slot, now)
        } else {
            self
        }
    }

    /// The first `n` slots have been examined at `now`.
    pub open spec fn woken_upto(self, now: u64, n: nat) -> SchedModel
        decreases n,
    {
        if n == 0 {
            self
        } else {
            self.woken_upto(now, (n - 1) as nat).woken((n - 1) as usize, now)
        }
    }

    // ---- Order and settledness of simple steps -----------------------------
    pub(crate) proof fn lemma_tidy_frame(self, other: SchedModel)
        requires
            self.fits(),
            self.distinct(),
            other.tasks.len() == self.tasks.len(),
            forall|x: usize|
                x < TASK_SLOT_COUNT ==> {
                    &&& (#[trigger] other.task(x)).priority == self.task(x).priority
                    &&& other.task(x).base_priority == self.task(x).base_priority
                    &&& other.task(x).inherited_waiters == self.task(x).inherited_waiters
                },
            forall|q: int| 32 <= q < 96 ==> #[trigger] other.queues[q] == self.queues[q],
        ensures
            self.all_settled() ==> other.all_settled(),
            self.all_by_priority() ==> other.all_by_priority(),
    {
        if self.all_settled() {
            assert forall|x: usize| x < TASK_SLOT_COUNT implies #[trigger] other.settled(x) by {
                assert(self.settled(x));
                assert(other.task(x).priority == self.task(x).priority);
                inheritance::lemma_best_donation_same(other.task(x), self.task(x), 0);
            }
        }
        if self.all_by_priority() {
            assert forall|q: int| 32 <= q < 96 implies #[trigger] other.by_priority(q) by {
                assert(self.by_priority(q));
                let s = self.queues[q];
                assert(other.queues[q] == s);
                assert forall|i: int|
                    #![trigger s[i]]
                    0 <= i < s.len() implies other.tasks[s[i] as int].priority
                    == self.tasks[s[i] as int].priority by {
                    assert(s.contains(s[i]));
                    assert(other.task(s[i]).priority == self.task(s[i]).priority);
                }
            }
        }
    }

    pub(crate) proof fn lemma_made_ready_tidy(self, slot: usize, now: u64)
        requires
            self.fits(),
            self.distinct(),
            slot < TASK_SLOT_COUNT,
        ensures
            self.tidy() ==> self.made_ready(slot, now).tidy(),
    {
        let n = self.made_ready(slot, now);
        let t = self.task(slot);
        let key = self.ready_key(slot);
        assert(self.tasks[slot as int].priority < 32);
        assert forall|x: usize| x < TASK_SLOT_COUNT implies {
            &&& (#[trigger] n.task(x)).priority == self.task(x).priority
            &&& n.task(x).base_priority == self.task(x).base_priority
            &&& n.task(x).inherited_waiters == self.task(x).inherited_waiters
        } by {}
        self.lemma_tidy_frame(n);
        if self.idle_unqueued() && self.policy is None {
            assert forall|q: int| 0 <= q < 32 implies !(#[trigger] n.queues[q]).contains(
                IDLE_SLOT,
            ) by {
                assert(!self.queues[q].contains(IDLE_SLOT));
                if slot != IDLE_SLOT && q == key {
                    let s = self.queues[q].push(slot);
                    if s.contains(IDLE_SLOT) {
                        let i = s.index_of(IDLE_SLOT);
                        if i < self.queues[q].len() {
                            assert(self.queues[q][i] == IDLE_SLOT);
                        }
                    }
                }
            }
        }
    }

    // ---- Leaving a wait ----------------------------------------------------
    pub(crate) proof fn lemma_sem_wait_left(self, slot: usize)
        requires
            self.coherent(),
            slot < TASK_SLOT_COUNT,
            self.task(slot).waiting_sem != 0,
        ensures
            self.sem_wait_left(slot).coherent(),
            self.sem_wait_left(slot).loose(slot),
            self.dequeued(32 + self.task(slot).waiting_sem - 1, slot).fits(),
            self.tidy() ==> self.sem_wait_left(slot).tidy(),
    {
        let t = self.task(slot);
        let queue = 32 + t.waiting_sem - 1;
        let t2 = Tcb { waiting_sem: 0, sem_granted: false, wake_at: 0, ..t };
        assert(self.tasks[slot as int].waiting_sem <= 32);
        assert(self.tasks[slot as int].waiting_mutex == 0);
        let m1 = self.dequeued(queue, slot);
        let n = self.sem_wait_left(slot);
        assert(self.home(slot) == queue);
        self.lemma_placed_removed(slot);
        self.lemma_dequeued_distinct(queue, slot);
        assert(self.tasks[slot as int].priority < 32);
        m1.lemma_fits_with_task(slot, t2);
        assert(n == m1.with_task(slot, t2));
        assert(n.loose(slot)) by {
            assert(m1.loose(slot));
        }
        assert forall|q: int, x: usize|
            #![trigger n.queues[q].contains(x)]
            0 <= q < 96 && n.queues[q].contains(x) implies n.seated(q, x) by {
            assert(m1.queues[q].contains(x));
            assert(self.queues[q].contains(x));
            if x == slot {
                assert(!m1.queues[q].contains(slot));
            } else {
                assert(n.task(x) == self.task(x));
            }
        }
        assert(n.waits_once()) by {
            assert forall|i: int| 0 <= i < TASK_SLOT_COUNT implies (
            #[trigger] n.tasks[i]).waiting_sem == 0 || n.tasks[i].waiting_mutex == 0 by {
                assert(self.tasks[i].waiting_sem == 0 || self.tasks[i].waiting_mutex == 0);
            }
        }
        assert(n.waits_live()) by {
            assert forall|x: usize| x < TASK_SLOT_COUNT implies {
                let t = #[trigger] n.task(x);
                &&& t.waiting_sem != 0 ==> t.state == State::Blocked && n.queues[32 + t.waiting_sem
                    - 1].contains(x)
                &&& t.waiting_mutex != 0 ==> t.state == State::Blocked && n.queues[64
                    + t.waiting_mutex - 1].contains(x)
            } by {
                if x != slot {
                    assert(n.task(x) == self.task(x));
                    assert(self.tasks[x as int].waiting_sem <= 32);
                    let q = 32 + self.task(x).waiting_sem - 1;
                    if self.task(x).waiting_sem != 0 {
                        assert(self.queues[q].contains(x));
                        assert(m1.queues[q].contains(x));
                    }
                }
            }
        }
        assert(self.same_mutex_graph(n)) by {
            assert forall|x: usize| x < TASK_SLOT_COUNT implies {
                &&& (#[trigger] n.task(x)).waiting_mutex == self.task(x).waiting_mutex
                &&& n.task(x).priority == self.task(x).priority
                &&& n.task(x).inherited_waiters == self.task(x).inherited_waiters
                &&& self.task(x).waiting_mutex != 0 ==> (n.queues[64 + self.task(x).waiting_mutex
                    - 1].contains(x) <==> self.queues[64 + self.task(x).waiting_mutex
                    - 1].contains(x))
            } by {
                assert(self.tasks[x as int].waiting_mutex <= 32);
            }
        }
        self.lemma_grants_frame(n);
        self.lemma_same_graph(n);
        if self.tidy() {
            assert forall|x: usize| x < TASK_SLOT_COUNT implies #[trigger] n.settled(x) by {
                assert(self.settled(x));
                inheritance::lemma_best_donation_same(n.task(x), self.task(x), 0);
            }
            assert forall|q: int| 32 <= q < 96 implies #[trigger] n.by_priority(q) by {
                assert(self.by_priority(q));
                let s = self.queues[q];
                assert forall|x: usize| x != slot && s.contains(x) implies
                    #[trigger] n.tasks[x as int].priority == self.tasks[x as int].priority by {}
                donation::lemma_without_ordered(self.tasks, n.tasks, s, slot);
                if q != queue {
                    if s.contains(slot) {
                        assert(self.home(slot) == q);
                    }
                    links::lemma_without(s, slot);
                }
            }
            assert forall|q: int| self.policy is None && 0 <= q < 32 implies !(
            #[trigger] n.queues[q]).contains(IDLE_SLOT) by {
                assert(!self.queues[q].contains(IDLE_SLOT));
            }
        }
    }

    /// In kindred states the idle thread is queued in both or in neither.
    pub(crate) proof fn lemma_kin_idle(self, other: SchedModel)
        requires
            self.kin(other),
            other.placed(),
            self.idle_unqueued(),
        ensures
            other.idle_unqueued(),
    {
        if other.policy is None {
            assert forall|q: int| 0 <= q < 32 implies !(#[trigger] other.queues[q]).contains(
                IDLE_SLOT,
            ) by {
                if other.queues[q].contains(IDLE_SLOT) {
                    assert(q == other.home(IDLE_SLOT));
                    assert(other.ready_queued(IDLE_SLOT));
                    assert(self.ready_queued(IDLE_SLOT));
                    assert(self.tasks[IDLE_SLOT as int].priority < 32);
                }
            }
        }
    }

    /// Chains depend on waits and owners alone.
    pub(crate) proof fn lemma_same_hits(
        self,
        other: SchedModel,
        start: usize,
        sought: usize,
        fuel: nat,
    )
        requires
            self.fits(),
            start < TASK_SLOT_COUNT,
            other.mutex_owner == self.mutex_owner,
            forall|x: usize|
                x < TASK_SLOT_COUNT ==> (#[trigger] other.task(x)).waiting_mutex == self.task(
                    x,
                ).waiting_mutex,
        ensures
            other.chain_hits(start, sought, fuel) == self.chain_hits(start, sought, fuel),
        decreases fuel,
    {
        if fuel > 0 {
            assert(other.task(start).waiting_mutex == self.task(start).waiting_mutex);
            if let Some(owner) = self.blocker(start) {
                let index = self.task(start).waiting_mutex - 1;
                assert(self.tasks[start as int].waiting_mutex <= 32);
                assert(self.mutex_owner[index] < TASK_SLOT_COUNT);
                self.lemma_same_hits(other, owner, sought, (fuel - 1) as nat);
            }
        }
    }

    /// A refresh leaves alone every task that its chain does not pass.
    pub(crate) proof fn lemma_refreshed_untouched(self, start: usize, other: usize, fuel: nat)
        requires
            self.fits(),
            start < TASK_SLOT_COUNT,
            other < TASK_SLOT_COUNT,
            !self.chain_hits(start, other, fuel + 1),
        ensures
            self.refreshed(start, fuel).task(other) == self.task(other),
        decreases fuel,
    {
        let t = self.task(start);
        let new = t.effective();
        if fuel == 0 || t.priority == new {
        } else {
            assert(start != other);
            assert(self.tasks[start as int].base_priority < 32);
            inheritance::lemma_effective_bound(t);
            self.lemma_with_priority_frame(start, new);
            let m = self.with_priority(start, new);
            if let Some(owner) = self.blocker(start) {
                let queue = 64 + t.waiting_mutex - 1;
                let index = t.waiting_mutex - 1;
                assert(self.tasks[start as int].waiting_mutex <= 32);
                assert(self.mutex_owner[index] < TASK_SLOT_COUNT);
                assert((fuel + 1 - 1) as nat == fuel);
                assert(!self.chain_hits(owner, other, fuel));
                assert(owner != other);
                let m2 = m.dequeued(queue, start).enqueued(queue, start).redonated(
                    owner,
                    t.priority,
                    new,
                );
                assert(m2.fits()) by {
                    assert forall|i: int| 0 <= i < TASK_SLOT_COUNT implies {
                        let t = #[trigger] m2.tasks[i];
                        &&& t.priority < 32
                        &&& t.base_priority < 32
                        &&& t.waiting_sem <= 32
                        &&& t.waiting_mutex <= 32
                        &&& t.granted_sem <= 32
                        &&& t.granted_mutex <= 32
                    } by {
                        assert(m.tasks[i].priority < 32);
                    }
                }
                assert forall|x: usize| x < TASK_SLOT_COUNT implies (#[trigger] m2.task(
                    x,
                )).waiting_mutex == self.task(x).waiting_mutex by {}
                self.lemma_same_hits(m2, owner, other, fuel);
                m2.lemma_refreshed_untouched(owner, other, (fuel - 1) as nat);
            }
        }
    }

    /// Leaving a mutex queue takes exactly one donor away from its owner.
    proof fn lemma_left_exact(self, slot: usize)
        requires
            self.coherent(),
            slot < TASK_SLOT_COUNT,
            self.task(slot).waiting_mutex != 0,
        ensures
            ({
                let t = self.task(slot);
                let left = self.dequeued(64 + t.waiting_mutex - 1, slot);
                let owner = self.mutex_owner[t.waiting_mutex - 1];
                if owner == NIL {
                    left.exact()
                } else {
                    left.undonated(owner, t.priority).exact()
                }
            }),
    {
        let t = self.task(slot);
        let queue = 64 + t.waiting_mutex - 1;
        let owner = self.mutex_owner[t.waiting_mutex - 1];
        assert(self.tasks[slot as int].waiting_mutex <= 32);
        assert(self.tasks[slot as int].priority < 32);
        let left = self.dequeued(queue, slot);
        links::lemma_without(self.queues[queue], slot);
        let m = if owner == NIL {
            left
        } else {
            left.undonated(owner, t.priority)
        };
        if owner != NIL {
            assert(owner < TASK_SLOT_COUNT);
            assert(self.donates(slot, owner, t.priority));
            self.lemma_donors_bound(owner, t.priority);
            assert(self.donations(owner, t.priority) == self.donors(owner, t.priority));
        }
        assert forall|o: usize, level: u8|
            o < TASK_SLOT_COUNT && level < 32 implies #[trigger] m.donations(o, level) == m.donors(
            o,
            level,
        ) by {
            assert(self.donations(o, level) == self.donors(o, level));
            assert forall|x: usize| x < TASK_SLOT_COUNT && x != slot implies #[trigger] self.donates(
                x,
                o,
                level,
            ) == m.donates(x, o, level) by {
                assert(self.tasks[x as int].waiting_mutex <= 32);
                assert(m.task(x).waiting_mutex == self.task(x).waiting_mutex);
                assert(m.task(x).priority == self.task(x).priority);
            }
            self.lemma_donors_change(m, slot, o, level);
            assert(m.task(slot).waiting_mutex == t.waiting_mutex);
            assert(!m.queues[queue].contains(slot));
            assert(!m.donates(slot, o, level));
            assert(self.donates(slot, o, level) == (o == owner && level == t.priority));
        }
    }

    /// Taking a donation back finds the donation, keeps the counters exact and the
    /// chains intact.
    pub(crate) proof fn lemma_mutex_donation_left(self, slot: usize)
        requires
            self.coherent(),
            slot < TASK_SLOT_COUNT,
            self.task(slot).waiting_mutex != 0,
        ensures
            ({
                let t = self.task(slot);
                let queue = 64 + t.waiting_mutex - 1;
                let left = self.dequeued(queue, slot);
                let owner = self.mutex_owner[t.waiting_mutex - 1];
                let n = self.mutex_donation_left(slot);
                &&& left.sound()
                &&& left.loose(slot)
                &&& left.fits()
                &&& owner != NIL ==> {
                    &&& owner != slot
                    &&& owner < TASK_SLOT_COUNT
                    &&& left.donations(owner, t.priority) > 0
                    &&& left.undonated(owner, t.priority).refreshable(owner, TASK_SLOT_COUNT as nat)
                }
                &&& left.kin(n)
                &&& n.sound()
                &&& n.exact()
                &&& n.loose(slot)
                &&& n.task(slot) == t
                &&& self.all_by_priority() ==> n.all_by_priority()
                &&& self.all_settled() ==> n.all_settled()
                &&& self.idle_unqueued() ==> n.idle_unqueued()
            }),
    {
        let t = self.task(slot);
        let x = t.waiting_mutex - 1;
        let queue = 64 + x;
        let owner = self.mutex_owner[x];
        assert(self.tasks[slot as int].waiting_mutex <= 32);
        assert(self.tasks[slot as int].waiting_sem == 0);
        assert(self.tasks[slot as int].priority < 32);
        let left = self.dequeued(queue, slot);
        let n = self.mutex_donation_left(slot);
        assert(self.home(slot) == queue);
        self.lemma_placed_removed(slot);
        self.lemma_dequeued_distinct(queue, slot);
        assert forall|q: int, y: usize|
            #![trigger left.queues[q].contains(y)]
            0 <= q < 96 && left.queues[q].contains(y) implies q == left.home(y) && (q < 32
            ==> left.task(y).state == State::Ready) by {
            assert(self.queues[q].contains(y));
        }
        assert(left.waits_once()) by {
            assert forall|i: int| 0 <= i < TASK_SLOT_COUNT implies (
            #[trigger] left.tasks[i]).waiting_sem == 0 || left.tasks[i].waiting_mutex == 0 by {
                assert(self.tasks[i].waiting_sem == 0 || self.tasks[i].waiting_mutex == 0);
            }
        }
        assert(left.sound());
        if self.all_by_priority() {
            assert forall|q: int| 32 <= q < 96 implies #[trigger] left.by_priority(q) by {
                assert(self.by_priority(q));
                let s = self.queues[q];
                donation::lemma_without_ordered(self.tasks, left.tasks, s, slot);
                if q != queue {
                    if s.contains(slot) {
                        assert(self.home(slot) == q);
                    }
                    links::lemma_without(s, slot);
                }
            }
        }
        if self.idle_unqueued() && self.policy is None {
            assert forall|q: int| 0 <= q < 32 implies !(#[trigger] left.queues[q]).contains(
                IDLE_SLOT,
            ) by {
                assert(!self.queues[q].contains(IDLE_SLOT));
            }
        }
        if owner == NIL {
            self.lemma_left_exact(slot);
            assert forall|y: usize| y < TASK_SLOT_COUNT implies (#[trigger] n.ready_queued(y)
                <==> left.ready_queued(y)) by {}
            if self.all_settled() {
                assert forall|y: usize| y < TASK_SLOT_COUNT implies #[trigger] n.settled(y) by {
                    assert(self.settled(y));
                }
            }
        } else {
            assert(owner < TASK_SLOT_COUNT);
            assert(self.chain_live(slot, TASK_SLOT_COUNT as nat));
            self.lemma_no_self_block(slot, TASK_SLOT_COUNT as nat);
            assert(self.blocker(slot) == Some(owner));
            assert(self.donates(slot, owner, t.priority));
            self.lemma_donors_bound(owner, t.priority);
            assert(self.donations(owner, t.priority) == self.donors(owner, t.priority));
            let amount = (left.donations(owner, t.priority) - 1) as u8;
            let m = left.undonated(owner, t.priority);
            left.lemma_with_donations_kin(owner, t.priority, amount);
            self.lemma_left_exact(slot);
            // The chain of the owner does not pass the leaving task.
            self.lemma_chain_longer(owner, 16, TASK_SLOT_COUNT as nat);
            self.lemma_no_return(slot, owner, TASK_SLOT_COUNT as nat, TASK_SLOT_COUNT as nat);
            assert(self.same_waits_but(left, slot)) by {
                assert forall|y: usize| y < TASK_SLOT_COUNT && y != slot implies {
                    &&& (#[trigger] left.task(y)).waiting_mutex == self.task(y).waiting_mutex
                    &&& self.task(y).waiting_mutex != 0 ==> (left.queues[64
                        + self.task(y).waiting_mutex - 1].contains(y) <==> self.queues[64
                        + self.task(y).waiting_mutex - 1].contains(y))
                } by {
                    assert(self.tasks[y as int].waiting_mutex <= 32);
                    if self.task(y).waiting_mutex != 0 {
                        let q = 64 + self.task(y).waiting_mutex - 1;
                        assert(left.queues[q].contains(y) <==> self.queues[q].contains(y));
                    }
                }
            }
            self.lemma_chain_avoids(left, slot, owner, TASK_SLOT_COUNT as nat);
            left.lemma_kin_chain(m, owner, TASK_SLOT_COUNT as nat);
            self.lemma_waits_sems();
            assert(left.sems_live()) by {
                assert forall|y: usize|
                    y < TASK_SLOT_COUNT && (#[trigger] left.task(y)).waiting_sem != 0 implies {
                    &&& left.queues[32 + left.task(y).waiting_sem - 1].contains(y)
                    &&& left.task(y).state != State::Ready
                } by {
                    assert(self.task(y).waiting_sem != 0);
                    assert(self.tasks[y as int].waiting_sem <= 32);
                }
            }
            left.lemma_kin_sems(m);
            m.lemma_refreshed(owner, TASK_SLOT_COUNT as nat);
            left.lemma_kin_trans(m, n);
            // The leaving task itself is untouched by the refresh.
            self.lemma_no_return(slot, owner, TASK_SLOT_COUNT as nat + 1, TASK_SLOT_COUNT as nat);
            self.lemma_same_hits(m, owner, slot, TASK_SLOT_COUNT as nat + 1);
            m.lemma_refreshed_untouched(owner, slot, TASK_SLOT_COUNT as nat);
            if self.all_by_priority() {
                assert(m.all_by_priority()) by {
                    assert forall|q: int| 32 <= q < 96 implies #[trigger] m.by_priority(q) by {
                        assert(left.by_priority(q));
                        let s = left.queues[q];
                        assert forall|i: int|
                            #![trigger s[i]]
                            0 <= i < s.len() implies m.tasks[s[i] as int].priority
                            == left.tasks[s[i] as int].priority by {
                            assert(s.contains(s[i]));
                            assert(m.task(s[i]).priority == left.task(s[i]).priority);
                        }
                    }
                }
            }
            if self.all_settled() {
                assert forall|y: usize| y < TASK_SLOT_COUNT && y != owner implies
                    #[trigger] m.settled(y) by {
                    assert(self.settled(y));
                    assert(m.task(y) == self.task(y));
                }
            }
            if self.idle_unqueued() {
                left.lemma_kin_idle(n);
            }
            assert(n.loose(slot)) by {
                assert forall|q: int| 0 <= q < 96 implies !(#[trigger] n.queues[q]).contains(
                    slot,
                ) by {
                    if n.queues[q].contains(slot) {
                        assert(q == n.home(slot));
                        assert(n.queues[queue].contains(slot) <==> left.queues[queue].contains(
                            slot,
                        ));
                    }
                }
            }
        }
    }

    pub(crate) proof fn lemma_mutex_wait_left(self, slot: usize)
        requires
            self.coherent(),
            slot < TASK_SLOT_COUNT,
            self.task(slot).waiting_mutex != 0,
        ensures
            self.mutex_wait_left(slot).coherent(),
            self.mutex_wait_left(slot).loose(slot),
            self.mutex_wait_left(slot).task(slot).waiting_sem == 0,
            self.mutex_wait_left(slot).task(slot).waiting_mutex == 0,
            self.tidy() ==> self.mutex_wait_left(slot).tidy(),
    {
        let t = self.task(slot);
        let queue = 64 + t.waiting_mutex - 1;
        assert(self.tasks[slot as int].waiting_mutex <= 32);
        assert(self.tasks[slot as int].waiting_sem == 0);
        let left = self.dequeued(queue, slot);
        let m = self.mutex_donation_left(slot);
        let n = self.mutex_wait_left(slot);
        self.lemma_mutex_donation_left(slot);
        self.lemma_dequeued_distinct(queue, slot);
        let t2 = Tcb { waiting_mutex: 0, sem_granted: false, wake_at: 0, ..m.task(slot) };
        assert(m.tasks[slot as int].priority < 32);
        m.lemma_fits_with_task(slot, t2);
        assert(n == m.with_task(slot, t2));
        assert(n.loose(slot)) by {
            assert(m.loose(slot));
        }
        assert forall|q: int, x: usize|
            #![trigger n.queues[q].contains(x)]
            0 <= q < 96 && n.queues[q].contains(x) implies n.seated(q, x) by {
            assert(m.queues[q].contains(x));
            if x == slot {
                assert(!m.queues[q].contains(slot));
            } else {
                assert(n.task(x) == m.task(x));
            }
        }
        assert(n.waits_once()) by {
            assert forall|i: int| 0 <= i < TASK_SLOT_COUNT implies (
            #[trigger] n.tasks[i]).waiting_sem == 0 || n.tasks[i].waiting_mutex == 0 by {
                assert(m.tasks[i].waiting_sem == 0 || m.tasks[i].waiting_mutex == 0);
            }
        }
        assert forall|x: usize| x < TASK_SLOT_COUNT && x != slot implies #[trigger] n.task(x)
            == (Tcb {
            priority: m.task(x).priority,
            inherited_waiters: m.task(x).inherited_waiters,
            ..self.task(x)
        }) by {
            assert(m.tasks[x as int] == (Tcb {
                priority: m.tasks[x as int].priority,
                inherited_waiters: m.tasks[x as int].inherited_waiters,
                ..left.tasks[x as int]
            }));
        }
        assert(n.waits_live()) by {
            assert forall|x: usize| x < TASK_SLOT_COUNT implies {
                let t = #[trigger] n.task(x);
                &&& t.waiting_sem != 0 ==> t.state == State::Blocked && n.queues[32 + t.waiting_sem
                    - 1].contains(x)
                &&& t.waiting_mutex != 0 ==> t.state == State::Blocked && n.queues[64
                    + t.waiting_mutex - 1].contains(x)
            } by {
                if x != slot {
                    let u = self.task(x);
                    assert(self.tasks[x as int].waiting_mutex <= 32);
                    if u.waiting_sem != 0 {
                        let q = 32 + u.waiting_sem - 1;
                        assert(self.queues[q].contains(x));
                        assert(left.queues[q].contains(x));
                        assert(m.queues[q].contains(x));
                    }
                    if u.waiting_mutex != 0 {
                        let q = 64 + u.waiting_mutex - 1;
                        assert(self.queues[q].contains(x));
                        assert(left.queues[q].contains(x));
                        assert(m.queues[q].contains(x));
                    }
                }
            }
        }
        assert(n.exact()) by {
            assert forall|o: usize, level: u8|
                o < TASK_SLOT_COUNT && level < 32 implies #[trigger] n.donations(o, level)
                == n.donors(o, level) by {
                assert(m.donations(o, level) == m.donors(o, level));
                assert forall|x: usize| x < TASK_SLOT_COUNT && x != slot implies
                    #[trigger] m.donates(x, o, level) == n.donates(x, o, level) by {
                    assert(n.task(x) == m.task(x));
                }
                m.lemma_donors_change(n, slot, o, level);
                assert(m.task(slot).waiting_mutex == t.waiting_mutex);
                assert(!m.queues[queue].contains(slot));
                assert(!m.donates(slot, o, level));
                assert(!n.donates(slot, o, level));
            }
        }
        assert(n.acyclic()) by {
            assert(self.same_waits_but(n, slot)) by {
                assert forall|y: usize| y < TASK_SLOT_COUNT && y != slot implies {
                    &&& (#[trigger] n.task(y)).waiting_mutex == self.task(y).waiting_mutex
                    &&& self.task(y).waiting_mutex != 0 ==> (n.queues[64
                        + self.task(y).waiting_mutex - 1].contains(y) <==> self.queues[64
                        + self.task(y).waiting_mutex - 1].contains(y))
                } by {
                    assert(self.tasks[y as int].waiting_mutex <= 32);
                    if self.task(y).waiting_mutex != 0 {
                        let q = 64 + self.task(y).waiting_mutex - 1;
                        assert(left.queues[q].contains(y) <==> self.queues[q].contains(y));
                        assert(m.queues[q].contains(y) <==> left.queues[q].contains(y));
                    }
                }
            }
            assert(n.chain_live(slot, 1));
            self.lemma_still_acyclic(n, slot, 1);
        }
        self.lemma_grants_frame(n);
        if self.tidy() {
            assert(m.distinct());
            assert forall|x: usize| x < TASK_SLOT_COUNT implies {
                &&& (#[trigger] n.task(x)).priority == m.task(x).priority
                &&& n.task(x).base_priority == m.task(x).base_priority
                &&& n.task(x).inherited_waiters == m.task(x).inherited_waiters
            } by {}
            m.lemma_tidy_frame(n);
        }
    }

    /// Examining a slot keeps the state coherent and tidy.
    pub(crate) proof fn lemma_woken(self, slot: usize, now: u64)
        requires
            self.coherent(),
            slot < TASK_SLOT_COUNT,
        ensures
            self.woken(slot, now).coherent(),
            self.tidy() ==> self.woken(slot, now).tidy(),
    {
        let t = self.task(slot);
        let n = self.woken(slot, now);
        if t.state == State::Sleeping && now >= t.wake_at {
            self.lemma_unqueued_when_idle_state(slot);
            self.lemma_made_ready_coherent(slot, now);
            self.lemma_made_ready_tidy(slot, now);
            let m = self.made_ready(slot, now);
            m.lemma_coherent_frame(n);
            m.lemma_tidy_frame(n);
        } else if t.state == State::Blocked && t.waiting_sem != 0 && self.overdue(slot, now) {
            assert(self.tasks[slot as int].waiting_mutex == 0);
            self.lemma_sem_wait_left(slot);
            let m1 = self.sem_wait_left(slot);
            m1.lemma_made_ready_coherent(slot, now);
            m1.lemma_made_ready_tidy(slot, now);
            let m = m1.made_ready(slot, now);
            m.lemma_coherent_frame(n);
            m.lemma_tidy_frame(n);
        } else if t.state == State::Blocked && t.waiting_mutex != 0 && self.overdue(slot, now) {
            self.lemma_mutex_wait_left(slot);
            let m1 = self.mutex_wait_left(slot);
            m1.lemma_made_ready_coherent(slot, now);
            m1.lemma_made_ready_tidy(slot, now);
        }
    }

    /// A task that is neither ready nor blocked is in no queue.
    pub(crate) proof fn lemma_unqueued_when_idle_state(self, slot: usize)
        requires
            self.coherent(),
            slot < TASK_SLOT_COUNT,
            self.task(slot).state != State::Ready,
            self.task(slot).state != State::Blocked,
        ensures
            self.loose(slot),
            self.task(slot).waiting_sem == 0,
            self.task(slot).waiting_mutex == 0,
    {
        assert(self.tasks[slot as int].priority < 32);
        let t = self.task(slot);
        assert forall|q: int| 0 <= q < 96 implies !(#[trigger] self.queues[q]).contains(slot) by {
            if self.queues[q].contains(slot) {
                assert(q == self.home(slot));
            }
        }
    }

    pub(crate) proof fn lemma_woken_upto(self, now: u64, n: nat)
        requires
            self.coherent(),
            n <= TASK_SLOT_COUNT,
        ensures
            self.woken_upto(now, n).coherent(),
            self.tidy() ==> self.woken_upto(now, n).tidy(),
        decreases n,
    {
        if n > 0 {
            self.lemma_woken_upto(now, (n - 1) as nat);
            self.woken_upto(now, (n - 1) as nat).lemma_woken((n - 1) as usize, now);
        }
    }

    /// Slot `slot` is examined at `now` for a due replenishment of its quota.
    pub open spec fn replenished(self, slot: usize, now: u64) -> SchedModel {
        let t = self.task(slot);
        if t.state == State::Throttled && t.budget.due(now) {
            self.with_task(slot, Tcb { budget: t.budget.replenished(now), ..t }).made_ready(
                slot,
                now,
            ).with_diagnostics(
                Diagnostics {
                    budget_replenishments: metrics::bumped(self.diagnostics.budget_replenishments),
                    ..self.diagnostics
                },
            )
        } else {
            self
        }
    }

    /// The first `n` slots have been examined for replenishment at `now`.
    pub open spec fn replenished_upto(self, now: u64, n: nat) -> SchedModel
        decreases n,
    {
        if n == 0 {
            self
        } else {
            self.replenished_upto(now, (n - 1) as nat).replenished((n - 1) as usize, now)
        }
    }

    /// Every slot has been examined at `now` for its deadline and its quota.
    pub open spec fn all_woken(self, now: u64) -> SchedModel {
        self.woken_upto(now, TASK_SLOT_COUNT as nat).replenished_upto(now, TASK_SLOT_COUNT as nat)
    }

    pub(crate) proof fn lemma_replenished(self, slot: usize, now: u64)
        requires
            self.coherent(),
            slot < TASK_SLOT_COUNT,
        ensures
            self.replenished(slot, now).coherent(),
            self.tidy() ==> self.replenished(slot, now).tidy(),
    {
        let t = self.task(slot);
        let n = self.replenished(slot, now);
        if t.state == State::Throttled && t.budget.due(now) {
            let t2 = Tcb { budget: t.budget.replenished(now), ..t };
            self.lemma_unqueued_when_idle_state(slot);
            assert(self.tasks[slot as int].base_priority < 32);
            self.lemma_tweak_coherent(slot, t2);
            let m1 = self.with_task(slot, t2);
            self.lemma_tidy_frame(m1);
            m1.lemma_made_ready_coherent(slot, now);
            m1.lemma_made_ready_tidy(slot, now);
            let m = m1.made_ready(slot, now);
            m.lemma_coherent_frame(n);
            m.lemma_tidy_frame(n);
        }
    }

    pub(crate) proof fn lemma_replenished_upto(self, now: u64, n: nat)
        requires
            self.coherent(),
            n <= TASK_SLOT_COUNT,
        ensures
            self.replenished_upto(now, n).coherent(),
            self.tidy() ==> self.replenished_upto(now, n).tidy(),
        decreases n,
    {
        if n > 0 {
            self.lemma_replenished_upto(now, (n - 1) as nat);
            self.replenished_upto(now, (n - 1) as nat).lemma_replenished((n - 1) as usize, now);
        }
    }

    pub(crate) proof fn lemma_all_woken(self, now: u64)
        requires
            self.coherent(),
        ensures
            self.all_woken(now).coherent(),
            self.tidy() ==> self.all_woken(now).tidy(),
    {
        self.lemma_woken_upto(now, TASK_SLOT_COUNT as nat);
        self.woken_upto(now, TASK_SLOT_COUNT as nat).lemma_replenished_upto(
            now,
            TASK_SLOT_COUNT as nat,
        );
    }
}

impl Sched {
    /// Takes a task out of the semaphore that it waits for.
    pub(crate) fn leave_semaphore(&mut self, slot: usize)
        requires
            old(self).wf(),
            old(self)@.coherent(),
            slot < TASK_SLOT_COUNT,
            old(self)@.task(slot).waiting_sem != 0,
        ensures
            final(self).wf(),
            final(self)@ == old(self)@.sem_wait_left(slot),
    {
        proof {
            assert(self@.tasks[slot as int] == self.tasks@[slot as int].unlinked());
            self@.lemma_sem_wait_left(slot);
        }
        let sem: usize = self.tasks[slot].waiting_sem - 1;
        self.remove_waiter(sem, slot);
        let mut task = self.tasks[slot];
        task.waiting_sem = 0;
        task.sem_granted = false;
        task.wake_at = 0;
        self.set_task(slot, task);
        assert(self@ =~= old(self)@.sem_wait_left(slot));
    }

    /// Takes a task out of the mutex that it waits for, together with its donation.
    #[verifier::spinoff_prover]
    #[verifier::rlimit(50)]
    pub(crate) fn leave_mutex(&mut self, slot: usize)
        requires
            old(self).wf(),
            old(self)@.coherent(),
            slot < TASK_SLOT_COUNT,
            old(self)@.task(slot).waiting_mutex != 0,
        ensures
            final(self).wf(),
            final(self)@ == old(self)@.mutex_wait_left(slot),
    {
        let ghost m0 = self@;
        proof {
            assert(self@.tasks[slot as int] == self.tasks@[slot as int].unlinked());
            m0.lemma_mutex_donation_left(slot);
            m0.lemma_mutex_wait_left(slot);
        }
        let mutex: usize = self.tasks[slot].waiting_mutex - 1;
        let priority: u8 = self.tasks[slot].priority;
        self.remove_mutex_waiter(mutex, slot);
        let owner: usize = self.mutexes[mutex].owner;
        assert(owner == self@.mutex_owner[mutex as int]);
        if owner != NIL {
            self.remove_inheritance(owner, priority);
        }
        assert(self@ == m0.mutex_donation_left(slot));
        assert(self@.tasks[slot as int] == self.tasks@[slot as int].unlinked());
        let mut task = self.tasks[slot];
        task.waiting_mutex = 0;
        task.sem_granted = false;
        task.wake_at = 0;
        self.set_task(slot, task);
        assert(self@ =~= m0.mutex_wait_left(slot));
    }

    /// Ends one slot's sleep or timed wait when its time has come.
    fn wake_slot(&mut self, slot: usize, now: u64)
        requires
            old(self).wf(),
            old(self)@.coherent(),
            slot < TASK_SLOT_COUNT,
        ensures
            final(self).wf(),
            final(self)@.coherent(),
            final(self)@ == old(self)@.woken(slot, now),
    {
        let ghost m0 = self@;
        proof {
            assert(self@.tasks[slot as int] == self.tasks@[slot as int].unlinked());
            m0.lemma_woken(slot, now);
        }
        let task = self.tasks[slot];
        if task.state == State::Sleeping && now >= task.wake_at {
            proof {
                m0.lemma_unqueued_when_idle_state(slot);
            }
            self.make_ready(slot, now);
            self.diagnostics.sleeper_wakes = bump(self.diagnostics.sleeper_wakes);
        } else if task.state == State::Blocked && task.waiting_sem != 0 && task.wake_at != 0 && now
            >= task.wake_at {
            proof {
                m0.lemma_sem_wait_left(slot);
            }
            self.leave_semaphore(slot);
            self.make_ready(slot, now);
            self.diagnostics.semaphore_timeouts = bump(self.diagnostics.semaphore_timeouts);
        } else if task.state == State::Blocked && task.waiting_mutex != 0 && task.wake_at != 0
            && now >= task.wake_at {
            proof {
                m0.lemma_mutex_wait_left(slot);
            }
            self.leave_mutex(slot);
            self.make_ready(slot, now);
        }
    }

    /// Makes ready every sleeper, timed waiter and throttled task whose time has
    /// come.
    pub fn wake_sleepers(&mut self, now: u64)
        requires
            old(self).wf(),
            old(self)@.coherent(),
        ensures
            final(self).wf(),
            final(self)@.coherent(),
            final(self)@ == old(self)@.all_woken(now),
    {
        let mut i: usize = 0;
        while i < TASK_SLOT_COUNT
            invariant
                i <= TASK_SLOT_COUNT,
                self.wf(),
                self@.coherent(),
                self@ == old(self)@.woken_upto(now, i as nat),
            decreases TASK_SLOT_COUNT - i,
        {
            self.wake_slot(i, now);
            i = i + 1;
        }
        self.replenish_budgets(now);
    }

    /// Makes ready every throttled task whose quota is due.
    pub fn replenish_budgets(&mut self, now: u64)
        requires
            old(self).wf(),
            old(self)@.coherent(),
        ensures
            final(self).wf(),
            final(self)@.coherent(),
            final(self)@ == old(self)@.replenished_upto(now, TASK_SLOT_COUNT as nat),
    {
        let mut i: usize = 0;
        while i < TASK_SLOT_COUNT
            invariant
                i <= TASK_SLOT_COUNT,
                self.wf(),
                self@.coherent(),
                self@ == old(self)@.replenished_upto(now, i as nat),
            decreases TASK_SLOT_COUNT - i,
        {
            let ghost m0 = self@;
            proof {
                assert(self@.tasks[i as int] == self.tasks@[i as int].unlinked());
                m0.lemma_replenished(i, now);
            }
            if self.tasks[i].state == State::Throttled {
                let mut task = self.tasks[i];
                let due = task.budget.replenish_if_due(now);
                if due {
                    proof {
                        m0.lemma_unqueued_when_idle_state(i);
                        assert(m0.tasks[i as int].base_priority < 32);
                        m0.lemma_tweak_coherent(i, task.unlinked());
                    }
                    self.set_task(i, task);
                    self.make_ready(i, now);
                    self.diagnostics.budget_replenishments = bump(
                        self.diagnostics.budget_replenishments,
                    );
                }
            }
            i = i + 1;
        }
    }
}

} // verus!
