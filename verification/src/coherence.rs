//! Coherence: what the scheduler keeps between operations.
//!
//! A coherent state has well-formed queues, exact donation counters, waiters that
//! are queued where they wait, and no cycle of mutex owners.
use vstd::prelude::*;
use crate::config::{NIL, TASK_SLOT_COUNT};
use crate::links;
use crate::model::SchedModel;
use crate::task::{State, Tcb};

verus! {

impl SchedModel {
    /// Every waiting task is blocked and queued on the object that it waits for.
    pub open spec fn waits_live(self) -> bool {
        forall|slot: usize|
            slot < TASK_SLOT_COUNT ==> {
                let t = #[trigger] self.task(slot);
                &&& t.waiting_sem != 0 ==> t.state == State::Blocked && self.queues[32
                    + t.waiting_sem - 1].contains(slot)
                &&& t.waiting_mutex != 0 ==> t.state == State::Blocked && self.queues[64
                    + t.waiting_mutex - 1].contains(slot)
            }
    }

    /// No chain of mutex owners runs in a circle.
    pub open spec fn acyclic(self) -> bool {
        forall|slot: usize|
            slot < TASK_SLOT_COUNT ==> #[trigger] self.chain_live(slot, TASK_SLOT_COUNT as nat)
    }

    /// A mutex handed to a task that has not yet noticed is owned by that task.
    pub open spec fn grants_live(self) -> bool {
        forall|slot: usize|
            slot < TASK_SLOT_COUNT && (#[trigger] self.task(slot)).granted_mutex != 0
                ==> self.mutex_owner[self.task(slot).granted_mutex - 1] == slot
    }

    /// Whoever waits for a mutex waits for its owner.
    pub open spec fn waits_owned(self) -> bool {
        forall|slot: usize|
            slot < TASK_SLOT_COUNT && (#[trigger] self.task(slot)).waiting_mutex != 0
                ==> self.mutex_owner[self.task(slot).waiting_mutex - 1] != NIL
    }

    /// What the scheduler keeps between operations.
    pub open spec fn coherent(self) -> bool {
        &&& self.sound()
        &&& self.exact()
        &&& self.waits_live()
        &&& self.acyclic()
        &&& self.grants_live()
        &&& self.waits_owned()
    }

    pub(crate) proof fn lemma_grants_frame(self, other: SchedModel)
        requires
            self.grants_live(),
            self.waits_owned(),
            other.mutex_owner == self.mutex_owner,
            forall|x: usize|
                x < TASK_SLOT_COUNT ==> {
                    &&& (#[trigger] other.task(x)).granted_mutex == self.task(x).granted_mutex
                        || other.task(x).granted_mutex == 0
                    &&& other.task(x).waiting_mutex == self.task(x).waiting_mutex || other.task(
                        x,
                    ).waiting_mutex == 0
                },
        ensures
            other.grants_live(),
            other.waits_owned(),
    {
        assert forall|slot: usize|
            slot < TASK_SLOT_COUNT && (#[trigger] other.task(slot)).waiting_mutex
                != 0 implies other.mutex_owner[other.task(slot).waiting_mutex - 1] != NIL by {
            assert(self.task(slot).waiting_mutex != 0);
        }
        assert forall|slot: usize|
            slot < TASK_SLOT_COUNT && (#[trigger] other.task(slot)).granted_mutex
                != 0 implies other.mutex_owner[other.task(slot).granted_mutex - 1] == slot by {
            assert(self.task(slot).granted_mutex != 0);
        }
    }

    /// Every task runs at the priority that its donations call for.
    pub open spec fn all_settled(self) -> bool {
        forall|slot: usize| slot < TASK_SLOT_COUNT ==> #[trigger] self.settled(slot)
    }

    /// The chain of owners from `slot` passes `sought` within `fuel` tasks.
    pub open spec fn chain_hits(self, slot: usize, sought: usize, fuel: nat) -> bool
        decreases fuel,
    {
        fuel > 0 && (slot == sought || match self.blocker(slot) {
            Some(owner) => self.chain_hits(owner, sought, (fuel - 1) as nat),
            None => false,
        })
    }

    pub(crate) proof fn lemma_chain_longer(self, slot: usize, fuel: nat, more: nat)
        requires
            self.chain_live(slot, fuel),
            fuel <= more,
        ensures
            self.chain_live(slot, more),
        decreases fuel,
    {
        if self.task(slot).waiting_mutex != 0 {
            if let Some(owner) = self.blocker(slot) {
                self.lemma_chain_longer(owner, (fuel - 1) as nat, (more - 1) as nat);
            }
        }
    }

    pub(crate) proof fn lemma_chain_passes(self, slot: usize, sought: usize, hops: nat, fuel: nat)
        requires
            self.chain_live(slot, fuel),
            self.chain_hits(slot, sought, hops),
        ensures
            self.chain_live(sought, fuel),
        decreases hops,
    {
        if slot != sought {
            let owner = self.blocker(slot)->0;
            self.lemma_chain_passes(owner, sought, (hops - 1) as nat, (fuel - 1) as nat);
            self.lemma_chain_longer(sought, (fuel - 1) as nat, fuel);
        }
    }

    /// A chain that ends never comes back to where it started.
    pub(crate) proof fn lemma_no_return(self, slot: usize, owner: usize, hops: nat, fuel: nat)
        requires
            self.chain_live(slot, fuel),
            self.blocker(slot) == Some(owner),
        ensures
            !self.chain_hits(owner, slot, hops),
        decreases fuel,
    {
        if self.chain_hits(owner, slot, hops) {
            self.lemma_chain_passes(owner, slot, hops, (fuel - 1) as nat);
            self.lemma_no_return(slot, owner, hops, (fuel - 1) as nat);
        }
    }

    /// The tasks on the chain from `slot`.
    pub open spec fn walk(self, slot: usize, fuel: nat) -> Seq<usize>
        decreases fuel,
    {
        if fuel == 0 {
            Seq::empty()
        } else {
            match self.blocker(slot) {
                Some(owner) => seq![slot] + self.walk(owner, (fuel - 1) as nat),
                None => seq![slot],
            }
        }
    }

    proof fn lemma_walk(self, slot: usize, fuel: nat)
        requires
            self.fits(),
            slot < TASK_SLOT_COUNT,
            self.chain_live(slot, fuel),
        ensures
            self.walk(slot, fuel).no_duplicates(),
            forall|i: int| 0 <= i < self.walk(slot, fuel).len() ==> #[trigger] self.walk(
                slot,
                fuel,
            )[i] < TASK_SLOT_COUNT,
            forall|x: usize| #[trigger]
                self.walk(slot, fuel).contains(x) ==> self.chain_hits(slot, x, fuel),
            self.chain_live(slot, self.walk(slot, fuel).len()),
        decreases fuel,
    {
        let w = self.walk(slot, fuel);
        if let Some(owner) = self.blocker(slot) {
            let index = self.task(slot).waiting_mutex - 1;
            assert(self.tasks[slot as int].waiting_mutex <= 32);
            assert(self.mutex_owner[index] < TASK_SLOT_COUNT);
            let rest = self.walk(owner, (fuel - 1) as nat);
            self.lemma_walk(owner, (fuel - 1) as nat);
            self.lemma_no_return(slot, owner, (fuel - 1) as nat, fuel);
            assert(!rest.contains(slot));
            assert(w == seq![slot] + rest);
            assert forall|i: int| 0 <= i < w.len() implies #[trigger] w[i] < TASK_SLOT_COUNT by {
                if i > 0 {
                    assert(w[i] == rest[i - 1]);
                }
            }
            assert forall|i: int, j: int| 0 <= i < w.len() && 0 <= j < w.len() && i != j implies w[i]
                != w[j] by {
                if i == 0 {
                    assert(w[j] == rest[j - 1]);
                    assert(rest.contains(rest[j - 1]));
                } else if j == 0 {
                    assert(w[i] == rest[i - 1]);
                    assert(rest.contains(rest[i - 1]));
                } else {
                    assert(w[i] == rest[i - 1] && w[j] == rest[j - 1]);
                }
            }
            assert forall|x: usize| #[trigger] w.contains(x) implies self.chain_hits(
                slot,
                x,
                fuel,
            ) by {
                let i = w.index_of(x);
                if i > 0 {
                    assert(rest[i - 1] == x);
                    assert(rest.contains(x));
                }
            }
            assert(w.len() == rest.len() + 1);
        } else {
            assert(w =~= seq![slot]);
            assert forall|x: usize| #[trigger] w.contains(x) implies self.chain_hits(
                slot,
                x,
                fuel,
            ) by {
                let i = w.index_of(x);
                assert(w[i] == x);
            }
        }
    }

    /// A chain that ends at all ends within the number of slots.
    pub(crate) proof fn lemma_chain_short(self, slot: usize, fuel: nat)
        requires
            self.fits(),
            slot < TASK_SLOT_COUNT,
            self.chain_live(slot, fuel),
        ensures
            self.chain_live(slot, TASK_SLOT_COUNT as nat),
    {
        self.lemma_walk(slot, fuel);
        let w = self.walk(slot, fuel);
        links::lemma_distinct_len(w, TASK_SLOT_COUNT as nat);
        self.lemma_chain_longer(slot, w.len(), TASK_SLOT_COUNT as nat);
    }

    /// `other` has the same waits as this state, except perhaps those of `slot`.
    pub open spec fn same_waits_but(self, other: SchedModel, slot: usize) -> bool {
        &&& self.fits()
        &&& other.fits()
        &&& other.mutex_owner == self.mutex_owner
        &&& forall|x: usize|
            x < TASK_SLOT_COUNT && x != slot ==> {
                &&& (#[trigger] other.task(x)).waiting_mutex == self.task(x).waiting_mutex
                &&& self.task(x).waiting_mutex != 0 ==> (other.queues[64
                    + self.task(x).waiting_mutex - 1].contains(x) <==> self.queues[64
                    + self.task(x).waiting_mutex - 1].contains(x))
            }
    }

    /// A chain that avoids `slot` does not notice a change of that slot.
    pub(crate) proof fn lemma_chain_avoids(
        self,
        other: SchedModel,
        slot: usize,
        start: usize,
        fuel: nat,
    )
        requires
            self.same_waits_but(other, slot),
            start < TASK_SLOT_COUNT,
            self.chain_live(start, fuel),
            !self.chain_hits(start, slot, fuel),
        ensures
            other.chain_live(start, fuel),
        decreases fuel,
    {
        assert(other.task(start).waiting_mutex == self.task(start).waiting_mutex);
        if let Some(owner) = self.blocker(start) {
            let index = self.task(start).waiting_mutex - 1;
            assert(self.tasks[start as int].waiting_mutex <= 32);
            assert(self.mutex_owner[index] < TASK_SLOT_COUNT);
            self.lemma_chain_avoids(other, slot, owner, (fuel - 1) as nat);
        }
    }

    /// If the changed slot has a chain that ends, then so has every other one.
    pub(crate) proof fn lemma_chain_through(
        self,
        other: SchedModel,
        slot: usize,
        start: usize,
        fuel: nat,
        extra: nat,
    )
        requires
            self.same_waits_but(other, slot),
            start < TASK_SLOT_COUNT,
            self.chain_live(start, fuel),
            other.chain_live(slot, extra),
        ensures
            other.chain_live(start, fuel + extra),
        decreases fuel,
    {
        if start == slot {
            other.lemma_chain_longer(slot, extra, fuel + extra);
        } else {
            assert(other.task(start).waiting_mutex == self.task(start).waiting_mutex);
            if let Some(owner) = self.blocker(start) {
                let index = self.task(start).waiting_mutex - 1;
                assert(self.tasks[start as int].waiting_mutex <= 32);
                assert(self.mutex_owner[index] < TASK_SLOT_COUNT);
                self.lemma_chain_through(other, slot, owner, (fuel - 1) as nat, extra);
                assert((fuel - 1) as nat + extra == (fuel + extra - 1) as nat);
            }
        }
    }

    /// A change of one slot keeps the chains short if that slot's chain ends.
    pub(crate) proof fn lemma_still_acyclic(self, other: SchedModel, slot: usize, extra: nat)
        requires
            self.same_waits_but(other, slot),
            self.acyclic(),
            other.chain_live(slot, extra),
        ensures
            other.acyclic(),
    {
        assert forall|x: usize| x < TASK_SLOT_COUNT implies #[trigger] other.chain_live(
            x,
            TASK_SLOT_COUNT as nat,
        ) by {
            assert(self.chain_live(x, TASK_SLOT_COUNT as nat));
            self.lemma_chain_through(other, slot, x, TASK_SLOT_COUNT as nat, extra);
            other.lemma_chain_short(x, TASK_SLOT_COUNT as nat + extra);
        }
    }

    /// Kindred states are coherent together, up to the counters.
    pub(crate) proof fn lemma_kin_coherent(self, other: SchedModel)
        requires
            self.kin(other),
            self.waits_live(),
            self.acyclic(),
            self.grants_live(),
            self.waits_owned(),
        ensures
            other.waits_live(),
            other.acyclic(),
            other.grants_live(),
            other.waits_owned(),
    {
        assert forall|x: usize| x < TASK_SLOT_COUNT implies {
            &&& (#[trigger] other.task(x)).granted_mutex == self.task(x).granted_mutex
            &&& other.task(x).waiting_mutex == self.task(x).waiting_mutex
        } by {
            assert(other.tasks[x as int] == (Tcb {
                priority: other.tasks[x as int].priority,
                inherited_waiters: other.tasks[x as int].inherited_waiters,
                ..self.tasks[x as int]
            }));
        }
        self.lemma_grants_frame(other);
        assert forall|slot: usize| slot < TASK_SLOT_COUNT implies {
            let t = #[trigger] other.task(slot);
            &&& t.waiting_sem != 0 ==> t.state == State::Blocked && other.queues[32 + t.waiting_sem
                - 1].contains(slot)
            &&& t.waiting_mutex != 0 ==> t.state == State::Blocked && other.queues[64
                + t.waiting_mutex - 1].contains(slot)
        } by {
            let t = self.task(slot);
            assert(self.tasks[slot as int].waiting_mutex <= 32);
            assert(other.tasks[slot as int] == (Tcb {
                priority: other.tasks[slot as int].priority,
                inherited_waiters: other.tasks[slot as int].inherited_waiters,
                ..self.tasks[slot as int]
            }));
            if t.waiting_sem != 0 {
                let q = 32 + t.waiting_sem - 1;
                assert(other.queues[q].contains(slot) <==> self.queues[q].contains(slot));
            }
            if t.waiting_mutex != 0 {
                let q = 64 + t.waiting_mutex - 1;
                assert(other.queues[q].contains(slot) <==> self.queues[q].contains(slot));
            }
        }
        assert forall|slot: usize| slot < TASK_SLOT_COUNT implies #[trigger] other.chain_live(
            slot,
            TASK_SLOT_COUNT as nat,
        ) by {
            assert(self.chain_live(slot, TASK_SLOT_COUNT as nat));
            self.lemma_kin_chain(other, slot, TASK_SLOT_COUNT as nat);
        }
    }

    /// Live waits include live semaphore waits.
    pub(crate) proof fn lemma_waits_sems(self)
        requires
            self.waits_live(),
        ensures
            self.sems_live(),
    {
        assert forall|slot: usize|
            slot < TASK_SLOT_COUNT && (#[trigger] self.task(slot)).waiting_sem != 0 implies {
            &&& self.queues[32 + self.task(slot).waiting_sem - 1].contains(slot)
            &&& self.task(slot).state != State::Ready
        } by {}
    }

    /// `other` has the same mutex waits, waiter priorities and counters.
    pub open spec fn same_mutex_graph(self, other: SchedModel) -> bool {
        &&& self.fits()
        &&& other.fits()
        &&& other.mutex_owner == self.mutex_owner
        &&& forall|x: usize|
            x < TASK_SLOT_COUNT ==> {
                &&& (#[trigger] other.task(x)).waiting_mutex == self.task(x).waiting_mutex
                &&& self.task(x).waiting_mutex != 0 ==> other.task(x).priority == self.task(
                    x,
                ).priority
                &&& other.task(x).inherited_waiters == self.task(x).inherited_waiters
                &&& self.task(x).waiting_mutex != 0 ==> (other.queues[64
                    + self.task(x).waiting_mutex - 1].contains(x) <==> self.queues[64
                    + self.task(x).waiting_mutex - 1].contains(x))
            }
    }

    pub(crate) proof fn lemma_same_graph(self, other: SchedModel)
        requires
            self.same_mutex_graph(other),
            self.exact(),
            self.acyclic(),
        ensures
            other.exact(),
            other.acyclic(),
    {
        assert forall|owner: usize, level: u8|
            owner < TASK_SLOT_COUNT && level < 32 implies #[trigger] other.donations(owner, level)
            == other.donors(owner, level) by {
            assert(self.donations(owner, level) == self.donors(owner, level));
            assert(other.task(owner).inherited_waiters == self.task(owner).inherited_waiters);
            assert forall|x: usize| x < TASK_SLOT_COUNT && x != owner implies
                #[trigger] self.donates(x, owner, level) == other.donates(x, owner, level) by {
                assert(other.task(x).waiting_mutex == self.task(x).waiting_mutex);
            }
            self.lemma_donors_change(other, owner, owner, level);
            assert(other.task(owner).waiting_mutex == self.task(owner).waiting_mutex);
        }
        assert(self.same_waits_but(other, NIL)) by {
            assert forall|x: usize| x < TASK_SLOT_COUNT && x != NIL implies {
                &&& (#[trigger] other.task(x)).waiting_mutex == self.task(x).waiting_mutex
                &&& self.task(x).waiting_mutex != 0 ==> (other.queues[64
                    + self.task(x).waiting_mutex - 1].contains(x) <==> self.queues[64
                    + self.task(x).waiting_mutex - 1].contains(x))
            } by {}
        }
        assert forall|x: usize| x < TASK_SLOT_COUNT implies #[trigger] other.chain_live(
            x,
            TASK_SLOT_COUNT as nat,
        ) by {
            assert(self.chain_live(x, TASK_SLOT_COUNT as nat));
            self.lemma_never_hits_nil(x, TASK_SLOT_COUNT as nat);
            self.lemma_chain_avoids(other, NIL, x, TASK_SLOT_COUNT as nat);
        }
    }

    proof fn lemma_never_hits_nil(self, slot: usize, fuel: nat)
        requires
            self.fits(),
            slot < TASK_SLOT_COUNT,
        ensures
            !self.chain_hits(slot, NIL, fuel),
        decreases fuel,
    {
        if fuel > 0 {
            if let Some(owner) = self.blocker(slot) {
                let index = self.task(slot).waiting_mutex - 1;
                assert(self.tasks[slot as int].waiting_mutex <= 32);
                assert(self.mutex_owner[index] < TASK_SLOT_COUNT);
                self.lemma_never_hits_nil(owner, (fuel - 1) as nat);
            }
        }
    }

    /// `task` may take the place of the block in `slot` without disturbing waits.
    pub open spec fn tweak(self, slot: usize, task: Tcb) -> bool {
        let t = self.task(slot);
        &&& task.waiting_sem == t.waiting_sem
        &&& task.waiting_mutex == t.waiting_mutex
        &&& task.priority == t.priority
        &&& task.inherited_waiters == t.inherited_waiters
        &&& task.base_priority < 32
        &&& task.granted_sem <= 32
        &&& task.granted_mutex == t.granted_mutex || task.granted_mutex == 0
        &&& t.waiting_sem != 0 || t.waiting_mutex != 0 ==> task.state == State::Blocked
        &&& self.ready_queued(slot) ==> task.state == State::Ready
    }

    pub(crate) proof fn lemma_fits_with_task(self, slot: usize, task: Tcb)
        requires
            self.fits(),
            slot < TASK_SLOT_COUNT,
            task.priority < 32,
            task.base_priority < 32,
            task.waiting_sem <= 32,
            task.waiting_mutex <= 32,
            task.granted_sem <= 32,
            task.granted_mutex <= 32,
        ensures
            self.with_task(slot, task).fits(),
    {
        let n = self.with_task(slot, task);
        assert forall|i: int| 0 <= i < TASK_SLOT_COUNT implies {
            let t = #[trigger] n.tasks[i];
            &&& t.priority < 32
            &&& t.base_priority < 32
            &&& t.waiting_sem <= 32
            &&& t.waiting_mutex <= 32
            &&& t.granted_sem <= 32
            &&& t.granted_mutex <= 32
        } by {
            assert(self.tasks[i].priority < 32);
        }
    }

    /// Bookkeeping on one block keeps the state coherent.
    pub(crate) proof fn lemma_tweak_coherent(self, slot: usize, task: Tcb)
        requires
            self.coherent(),
            slot < TASK_SLOT_COUNT,
            self.tweak(slot, task),
        ensures
            self.with_task(slot, task).coherent(),
            self.loose(slot) ==> self.with_task(slot, task).loose(slot),
    {
        let n = self.with_task(slot, task);
        assert(self.tasks[slot as int].priority < 32);
        assert(self.tasks[slot as int].granted_mutex <= 32);
        self.lemma_fits_with_task(slot, task);
        assert forall|q: int, x: usize|
            #![trigger n.queues[q].contains(x)]
            0 <= q < 96 && n.queues[q].contains(x) implies n.seated(q, x) by {
            assert(self.queues[q].contains(x));
            if x != slot {
                assert(n.task(x) == self.task(x));
            }
        }
        assert(n.waits_once()) by {
            assert forall|i: int| 0 <= i < TASK_SLOT_COUNT implies (
            #[trigger] n.tasks[i]).waiting_sem == 0 || n.tasks[i].waiting_mutex == 0 by {
                assert(self.tasks[i].waiting_sem == 0 || self.tasks[i].waiting_mutex == 0);
            }
        }
        assert(n.waits_live()) by {
            assert forall|x: usize| x < TASK_SLOT_COUNT implies {
                let t = #[trigger] n.task(x);
                &&& t.waiting_sem != 0 ==> t.state == State::Blocked && n.queues[32 + t.waiting_sem
                    - 1].contains(x)
                &&& t.waiting_mutex != 0 ==> t.state == State::Blocked && n.queues[64
                    + t.waiting_mutex - 1].contains(x)
            } by {
                let t = self.task(x);
                if x != slot {
                    assert(n.task(x) == t);
                }
            }
        }
        assert(self.same_mutex_graph(n)) by {
            assert forall|x: usize| x < TASK_SLOT_COUNT implies {
                &&& (#[trigger] n.task(x)).waiting_mutex == self.task(x).waiting_mutex
                &&& n.task(x).priority == self.task(x).priority
                &&& n.task(x).inherited_waiters == self.task(x).inherited_waiters
            } by {
                if x != slot {
                    assert(n.task(x) == self.task(x));
                }
            }
        }
        self.lemma_grants_frame(n);
        self.lemma_same_graph(n);
    }

    /// Changing nothing that coherence speaks of keeps the state coherent.
    pub(crate) proof fn lemma_coherent_frame(self, other: SchedModel)
        requires
            self.coherent(),
            other.tasks == self.tasks,
            other.queues == self.queues,
            other.mutex_owner == self.mutex_owner,
            other.policy == self.policy,
            other.sem_counts.len() == 32,
            other.mutex_depth.len() == 32,
            other.slot_generations.len() == TASK_SLOT_COUNT,
            other.current < TASK_SLOT_COUNT,
        ensures
            other.coherent(),
    {
        assert forall|q: int, x: usize|
            #![trigger other.queues[q].contains(x)]
            0 <= q < 96 && other.queues[q].contains(x) implies other.seated(q, x) by {
            assert(self.queues[q].contains(x));
        }
        assert(other.waits_live()) by {
            assert forall|x: usize| x < TASK_SLOT_COUNT implies {
                let t = #[trigger] other.task(x);
                &&& t.waiting_sem != 0 ==> t.state == State::Blocked && other.queues[32
                    + t.waiting_sem - 1].contains(x)
                &&& t.waiting_mutex != 0 ==> t.state == State::Blocked && other.queues[64
                    + t.waiting_mutex - 1].contains(x)
            } by {
                assert(other.task(x) == self.task(x));
            }
        }
        self.lemma_grants_frame(other);
        self.lemma_same_graph(other);
    }

    /// Queueing a ready task that is in no queue keeps the state coherent.
    pub(crate) proof fn lemma_pushed_coherent(self, slot: usize)
        requires
            self.coherent(),
            slot < TASK_SLOT_COUNT,
            self.loose(slot),
            self.task(slot).state == State::Ready,
        ensures
            self.pushed(slot).coherent(),
    {
        let n = self.pushed(slot);
        let key = self.ready_key(slot);
        let t = self.task(slot);
        assert(t.waiting_sem == 0 && t.waiting_mutex == 0);
        assert(self.tasks[slot as int].priority < 32);
        self.lemma_pushed_distinct(slot);
        assert(!self.queues[key].contains(slot));
        links::lemma_appended(self.queues[key], slot);
        assert forall|q: int, x: usize|
            #![trigger n.queues[q].contains(x)]
            0 <= q < 96 && n.queues[q].contains(x) implies n.seated(q, x) by {
            if x != slot || q != key {
                assert(self.queues[q].contains(x));
            }
        }
        assert(n.waits_live()) by {
            assert forall|x: usize| x < TASK_SLOT_COUNT implies {
                let t = #[trigger] n.task(x);
                &&& t.waiting_sem != 0 ==> t.state == State::Blocked && n.queues[32 + t.waiting_sem
                    - 1].contains(x)
                &&& t.waiting_mutex != 0 ==> t.state == State::Blocked && n.queues[64
                    + t.waiting_mutex - 1].contains(x)
            } by {
                assert(n.task(x) == self.task(x));
                assert(self.tasks[x as int].waiting_sem <= 32);
            }
        }
        assert(self.same_mutex_graph(n)) by {
            assert forall|x: usize| x < TASK_SLOT_COUNT implies {
                &&& (#[trigger] n.task(x)).waiting_mutex == self.task(x).waiting_mutex
                &&& self.task(x).waiting_mutex != 0 ==> (n.queues[64 + self.task(x).waiting_mutex
                    - 1].contains(x) <==> self.queues[64 + self.task(x).waiting_mutex
                    - 1].contains(x))
            } by {
                assert(self.tasks[x as int].waiting_mutex <= 32);
            }
        }
        self.lemma_grants_frame(n);
        self.lemma_same_graph(n);
    }

    /// Becoming ready keeps the state coherent.
    pub(crate) proof fn lemma_made_ready_coherent(self, slot: usize, now: u64)
        requires
            self.coherent(),
            slot < TASK_SLOT_COUNT,
            self.loose(slot) || self.is_idle(slot),
            self.task(slot).waiting_sem == 0,
            self.task(slot).waiting_mutex == 0,
        ensures
            self.made_ready(slot, now).coherent(),
    {
        let t = self.task(slot);
        let t2 = Tcb { state: State::Ready, metrics: t.metrics.made_ready(now), ..t };
        assert(self.tasks[slot as int].base_priority < 32);
        self.lemma_tweak_coherent(slot, t2);
        if !self.is_idle(slot) {
            self.with_task(slot, t2).lemma_pushed_coherent(slot);
        }
    }

    /// Taking any task off its ready queue keeps the state coherent.
    pub(crate) proof fn lemma_unqueued_coherent(self, key: int, slot: usize)
        requires
            self.coherent(),
            0 <= key < 32,
        ensures
            self.dequeued(key, slot).coherent(),
            self.queues[key].contains(slot) ==> self.dequeued(key, slot).loose(slot),
    {
        let n = self.dequeued(key, slot);
        self.lemma_dequeued_distinct(key, slot);
        assert forall|q: int, x: usize|
            #![trigger n.queues[q].contains(x)]
            0 <= q < 96 && n.queues[q].contains(x) implies n.seated(q, x) by {
            assert(self.queues[q].contains(x));
        }
        assert(n.waits_live()) by {
            assert forall|x: usize| x < TASK_SLOT_COUNT implies {
                let t = #[trigger] n.task(x);
                &&& t.waiting_sem != 0 ==> t.state == State::Blocked && n.queues[32 + t.waiting_sem
                    - 1].contains(x)
                &&& t.waiting_mutex != 0 ==> t.state == State::Blocked && n.queues[64
                    + t.waiting_mutex - 1].contains(x)
            } by {
                assert(n.task(x) == self.task(x));
                assert(self.tasks[x as int].waiting_sem <= 32);
            }
        }
        assert(self.same_mutex_graph(n)) by {
            assert forall|x: usize| x < TASK_SLOT_COUNT implies {
                &&& (#[trigger] n.task(x)).waiting_mutex == self.task(x).waiting_mutex
                &&& self.task(x).waiting_mutex != 0 ==> (n.queues[64 + self.task(x).waiting_mutex
                    - 1].contains(x) <==> self.queues[64 + self.task(x).waiting_mutex
                    - 1].contains(x))
            } by {
                assert(self.tasks[x as int].waiting_mutex <= 32);
            }
        }
        self.lemma_grants_frame(n);
        self.lemma_same_graph(n);
        if self.queues[key].contains(slot) {
            assert forall|q: int| 0 <= q < 96 implies !(#[trigger] n.queues[q]).contains(slot) by {
                if q != key {
                    assert(!self.queues[q].contains(slot));
                }
            }
        }
    }

    /// Taking the next ready task keeps the state coherent and leaves that task in
    /// no queue.
    pub(crate) proof fn lemma_popped_coherent(self)
        requires
            self.coherent(),
        ensures
            self.popped().coherent(),
            self.pop_slot() != NIL ==> self.pop_slot() < TASK_SLOT_COUNT && self.popped().loose(
                self.pop_slot(),
            ) && self.task(self.pop_slot()).state == State::Ready,
            forall|x: usize| #[trigger] self.loose(x) ==> self.popped().loose(x),
    {
        self.lemma_first_ready(0);
        if let Some(level) = self.first_ready() {
            let s = self.queues[level];
            assert(s.contains(s[0]));
            links::lemma_drop_first(s);
            self.lemma_unqueued_coherent(level, s[0]);
            assert(self.popped() == self.dequeued(level, s[0]));
            assert forall|x: usize| #[trigger] self.loose(x) implies self.popped().loose(x) by {
                assert forall|q: int| 0 <= q < 96 implies !(
                #[trigger] self.popped().queues[q]).contains(x) by {
                    assert(!self.queues[q].contains(x));
                }
            }
        }
    }

    /// The best ready level is the first one that is not empty.
    pub(crate) proof fn lemma_first_ready(self, level: int)
        requires
            0 <= level <= 32,
        ensures
            match self.first_ready_from(level) {
                Some(found) => {
                    &&& level <= found < 32
                    &&& self.queues[found].len() > 0
                    &&& forall|p: int| level <= p < found ==> (#[trigger] self.queues[p]).len() == 0
                },
                None => forall|p: int| level <= p < 32 ==> (#[trigger] self.queues[p]).len() == 0,
            },
        decreases 32 - level,
    {
        if level < 32 && self.queues[level].len() == 0 {
            self.lemma_first_ready(level + 1);
        }
    }
}

} // verus!
