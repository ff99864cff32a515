//! Which operations change whether a task runs, and how far inheritance reaches.
use vstd::prelude::*;
use crate::config::{NIL, TASK_SLOT_COUNT};
use crate::inheritance;
use crate::links;
use crate::model::SchedModel;
use crate::scheduling;
use crate::scheduling::BudgetState;
use crate::task::{State, Tcb};

verus! {

/// Whoever is in `s` is still there once `slot` has joined, and so is `slot`.
pub(crate) proof fn lemma_joined(s: Seq<usize>, slot: usize)
    ensures
        s.push(slot).contains(slot),
        forall|x: usize| s.contains(x) ==> #[trigger] s.push(slot).contains(x),
{
    assert(s.push(slot)[s.len() as int] == slot);
    assert forall|x: usize| s.contains(x) implies #[trigger] s.push(slot).contains(x) by {
        let i = choose|i: int| 0 <= i < s.len() && s[i] == x;
        assert(s.push(slot)[i] == x);
    }
}

/// Whoever else is in `s` is still there once `slot` has left.
pub(crate) proof fn lemma_others_left(s: Seq<usize>, slot: usize)
    ensures
        forall|x: usize|
            x != slot && s.contains(x) ==> #[trigger] links::without(s, slot).contains(x),
{
    assert forall|x: usize| x != slot && s.contains(x) implies #[trigger] links::without(
        s,
        slot,
    ).contains(x) by {
        if s.contains(slot) {
            let k = s.index_of(slot);
            let i = choose|i: int| 0 <= i < s.len() && s[i] == x;
            let t = s.remove(k);
            if i < k {
                assert(t[i] == x);
            } else {
                assert(t[i - 1] == x);
            }
        }
    }
}

/// Whoever is in `s` once `slot` has left was there before.
pub(crate) proof fn lemma_only_others_left(s: Seq<usize>, slot: usize)
    ensures
        forall|x: usize| #[trigger] links::without(s, slot).contains(x) ==> s.contains(x),
{
    assert forall|x: usize| #[trigger] links::without(s, slot).contains(x) implies s.contains(x) by {
        if s.contains(slot) {
            let k = s.index_of(slot);
            let t = s.remove(k);
            let i = choose|i: int| 0 <= i < t.len() && t[i] == x;
            if i < k {
                assert(s[i] == x);
            } else {
                assert(s[i + 1] == x);
            }
        }
    }
}

/// Whoever else is in `s` is still there once its first member has left.
pub(crate) proof fn lemma_others_follow(s: Seq<usize>)
    requires
        s.len() > 0,
    ensures
        forall|x: usize| x != s[0] && s.contains(x) ==> #[trigger] s.drop_first().contains(x),
{
    assert forall|x: usize| x != s[0] && s.contains(x) implies #[trigger] s.drop_first().contains(
        x,
    ) by {
        let i = choose|i: int| 0 <= i < s.len() && s[i] == x;
        assert(s.drop_first()[i - 1] == x);
    }
}

/// Policy and scheduler lock of a task are as before, and so is its quota unless it was
/// throttled and has been renewed; a sleeper sleeps until the same time.
pub open spec fn keeps_time(before: Tcb, after: Tcb) -> bool {
    &&& after.run_policy == before.run_policy
    &&& after.scheduler_lock_depth == before.scheduler_lock_depth
    &&& after.scheduler_lock_started_at == before.scheduler_lock_started_at
    &&& after.state == State::Sleeping ==> after.wake_at == before.wake_at
    &&& after.budget == before.budget || {
        &&& before.state == State::Throttled
        &&& after.state == State::Ready
        &&& before.budget.spec is Some
        &&& after.budget == (BudgetState {
            remaining: before.budget.spec->0.capacity_ms(),
            replenishes_at: after.budget.replenishes_at,
            ..before.budget
        })
        &&& after.budget.replenishes_at >= before.budget.replenishes_at
    }
}

impl SchedModel {
    /// At most one task runs, and it is the current one.
    pub open spec fn lone_runner(self) -> bool {
        forall|slot: usize|
            slot < TASK_SLOT_COUNT && (#[trigger] self.task(slot)).state == State::Running ==> slot
                == self.current
    }

    /// `slot` is in some ready queue.
    pub open spec fn enlisted(self, slot: usize) -> bool {
        exists|q: int| 0 <= q < 32 && (#[trigger] self.queues[q]).contains(slot)
    }

    /// If `slot` is ready in `other`, it is in its ready queue there, unless it was ready
    /// and out of its queue before. It has joined a ready queue only if it has become
    /// ready, and the idle thread never joins one.
    pub open spec fn stays_queued(self, other: SchedModel, slot: usize) -> bool {
        &&& other.task(slot).state == State::Ready && !self.is_idle(slot) && (self.task(slot).state
            == State::Ready ==> self.ready_queued(slot)) ==> other.ready_queued(slot)
        &&& other.enlisted(slot) ==> self.enlisted(slot) || (self.task(slot).state != State::Ready
            && other.task(slot).state == State::Ready && !self.is_idle(slot))
    }

    /// Tasks may have become ready that slept, waited or were throttled; no other task
    /// has changed its state, no task waits for anything new, no ready task has left its
    /// queue and none that was out of it has joined, and nothing that does not belong to a
    /// task has changed.
    pub open spec fn stirred(self, other: SchedModel) -> bool {
        &&& other.current == self.current
        &&& other.reservations == self.reservations
        &&& other.policy == self.policy
        &&& other.slot_generations == self.slot_generations
        &&& other.pending_switch == self.pending_switch
        &&& other.started == self.started
        &&& other.retired == self.retired
        &&& forall|slot: usize|
            slot < TASK_SLOT_COUNT ==> {
                let before = self.task(slot).state;
                let after = (#[trigger] other.task(slot)).state;
                &&& after == before || (after == State::Ready && (before == State::Sleeping
                    || before == State::Blocked || before == State::Throttled))
                &&& other.task(slot).scheduler_lock_started_at == self.task(
                    slot,
                ).scheduler_lock_started_at
                &&& other.task(slot).waiting_sem == self.task(slot).waiting_sem || other.task(
                    slot,
                ).waiting_sem == 0
                &&& other.task(slot).waiting_mutex == self.task(slot).waiting_mutex || other.task(
                    slot,
                ).waiting_mutex == 0
                &&& keeps_time(self.task(slot), other.task(slot))
                &&& self.stays_queued(other, slot)
            }
    }

    pub(crate) proof fn lemma_stirred_trans(self, b: SchedModel, c: SchedModel)
        requires
            self.stirred(b),
            b.stirred(c),
        ensures
            self.stirred(c),
    {
        assert forall|slot: usize| slot < TASK_SLOT_COUNT implies {
            let before = self.task(slot).state;
            let after = (#[trigger] c.task(slot)).state;
            &&& after == before || (after == State::Ready && (before == State::Sleeping
                || before == State::Blocked || before == State::Throttled))
            &&& c.task(slot).scheduler_lock_started_at == self.task(
                slot,
            ).scheduler_lock_started_at
            &&& c.task(slot).waiting_sem == self.task(slot).waiting_sem || c.task(
                slot,
            ).waiting_sem == 0
            &&& c.task(slot).waiting_mutex == self.task(slot).waiting_mutex || c.task(
                slot,
            ).waiting_mutex == 0
            &&& keeps_time(self.task(slot), c.task(slot))
            &&& self.stays_queued(c, slot)
        } by {
            assert(b.task(slot).state == b.task(slot).state);
        }
    }

    /// Waking tasks makes nobody run and stops nobody.
    pub(crate) proof fn lemma_stirred_runner(self, other: SchedModel)
        requires
            self.stirred(other),
        ensures
            self.lone_runner() ==> other.lone_runner(),
            self.current < TASK_SLOT_COUNT ==> (self.task(self.current).state == State::Running
                <==> other.task(other.current).state == State::Running),
    {
        if self.current < TASK_SLOT_COUNT {
            assert(other.task(self.current).state == other.task(self.current).state);
        }
        if self.lone_runner() {
            assert forall|slot: usize|
                slot < TASK_SLOT_COUNT && (#[trigger] other.task(slot)).state
                    == State::Running implies slot == other.current by {
                assert(self.task(slot).state == State::Running);
            }
        }
    }

    pub(crate) proof fn lemma_kin_stirred(self, other: SchedModel)
        requires
            self.kin(other),
            other.placed(),
        ensures
            self.stirred(other),
    {
        assert forall|slot: usize| slot < TASK_SLOT_COUNT implies self.stays_queued(other, slot) && (
        #[trigger] other.task(slot)).state == self.task(slot).state by {
            assert(other.tasks[slot as int] == (Tcb {
                priority: other.tasks[slot as int].priority,
                inherited_waiters: other.tasks[slot as int].inherited_waiters,
                ..self.tasks[slot as int]
            }));
            assert(other.ready_queued(slot) <==> self.ready_queued(slot));
            if other.enlisted(slot) {
                let q = choose|q: int| 0 <= q < 32 && (#[trigger] other.queues[q]).contains(slot);
                assert(q == other.home(slot));
                assert(other.tasks[slot as int].waiting_sem <= 32);
                assert(self.tasks[slot as int].priority < 32);
                assert(other.ready_queued(slot));
                assert(self.queues[self.ready_key(slot)].contains(slot));
            }
        }
    }

    proof fn lemma_made_ready_stirred(self, slot: usize, now: u64)
        requires
            self.fits(),
            slot < TASK_SLOT_COUNT,
            self.task(slot).state == State::Sleeping || self.task(slot).state == State::Blocked
                || self.task(slot).state == State::Throttled,
        ensures
            self.stirred(self.made_ready(slot, now)),
    {
        let n = self.made_ready(slot, now);
        self.lemma_made_ready_queued(slot, now);
        assert forall|x: usize| x < TASK_SLOT_COUNT && x != slot implies (#[trigger] n.task(x))
            == self.task(x) by {}
    }

    /// A task that becomes ready is queued, and nobody else leaves a queue.
    pub(crate) proof fn lemma_made_ready_queued(self, slot: usize, now: u64)
        requires
            self.tasks.len() == TASK_SLOT_COUNT,
            self.queues.len() == 96,
            slot < TASK_SLOT_COUNT,
            forall|x: usize| x < TASK_SLOT_COUNT ==> (#[trigger] self.task(x)).priority < 32,
        ensures
            !self.is_idle(slot) ==> self.made_ready(slot, now).ready_queued(slot),
            forall|x: usize|
                x < TASK_SLOT_COUNT && x != slot && self.ready_queued(x)
                    ==> #[trigger] self.made_ready(slot, now).ready_queued(x),
    {
        let n = self.made_ready(slot, now);
        lemma_joined(self.queues[self.ready_key(slot)], slot);
        assert forall|x: usize|
            x < TASK_SLOT_COUNT && x != slot && self.ready_queued(x) implies
            #[trigger] n.ready_queued(x) by {
            assert(n.task(x) == self.task(x));
            assert(self.task(slot).priority < 32);
            assert(n.ready_key(x) == self.ready_key(x));
        }
    }

    /// Giving up on a mutex takes nobody out of a ready queue.
    proof fn lemma_mutex_wait_left_stirred(self, slot: usize)
        requires
            self.coherent(),
            slot < TASK_SLOT_COUNT,
            self.task(slot).waiting_mutex != 0,
        ensures
            self.stirred(self.mutex_wait_left(slot)),
            self.mutex_wait_left(slot).task(slot).state == State::Blocked,
    {
        let t = self.task(slot);
        let left = self.dequeued(64 + t.waiting_mutex - 1, slot);
        let d = self.mutex_donation_left(slot);
        let m = self.mutex_wait_left(slot);
        self.lemma_mutex_donation_left(slot);
        self.lemma_mutex_wait_left(slot);
        left.lemma_kin_stirred(d);
        assert(t.state == State::Blocked);
        assert(self.tasks[slot as int].waiting_mutex <= 32);
        assert forall|x: usize| x < TASK_SLOT_COUNT implies self.stays_queued(m, x) && (
        #[trigger] m.task(x)).state == self.task(x).state by {
            assert(left.task(x) == self.task(x));
            assert(d.tasks[x as int] == (Tcb {
                priority: d.tasks[x as int].priority,
                inherited_waiters: d.tasks[x as int].inherited_waiters,
                ..left.tasks[x as int]
            }));
            if x != slot && self.task(x).state == State::Ready && self.ready_queued(x) {
                assert(self.tasks[x as int].priority < 32);
                assert(left.ready_queued(x));
                assert(d.ready_queued(x));
                assert(m.task(x) == d.task(x));
            }
        }
    }

    proof fn lemma_woken_stirred(self, slot: usize, now: u64)
        requires
            self.coherent(),
            slot < TASK_SLOT_COUNT,
        ensures
            self.stirred(self.woken(slot, now)),
    {
        let t = self.task(slot);
        let n = self.woken(slot, now);
        if t.state == State::Sleeping && now >= t.wake_at {
            self.lemma_made_ready_stirred(slot, now);
            let m = self.made_ready(slot, now);
            assert forall|x: usize| x < TASK_SLOT_COUNT implies (#[trigger] n.task(x)) == m.task(
                x,
            ) by {}
        } else if t.state == State::Blocked && t.waiting_sem != 0 && self.overdue(slot, now) {
            let m = self.sem_wait_left(slot);
            self.lemma_sem_wait_left(slot);
            m.lemma_made_ready_stirred(slot, now);
            assert forall|x: usize| x < TASK_SLOT_COUNT implies (#[trigger] m.task(x)).state
                == self.task(x).state by {}
            self.lemma_stirred_trans(m, m.made_ready(slot, now));
            assert forall|x: usize| x < TASK_SLOT_COUNT implies (#[trigger] n.task(x))
                == m.made_ready(slot, now).task(x) by {}
        } else if t.state == State::Blocked && t.waiting_mutex != 0 && self.overdue(slot, now) {
            let m = self.mutex_wait_left(slot);
            self.lemma_mutex_wait_left_stirred(slot);
            self.lemma_mutex_wait_left(slot);
            m.lemma_made_ready_stirred(slot, now);
            self.lemma_stirred_trans(m, m.made_ready(slot, now));
        }
    }

    proof fn lemma_replenished_stirred(self, slot: usize, now: u64)
        requires
            self.coherent(),
            slot < TASK_SLOT_COUNT,
        ensures
            self.stirred(self.replenished(slot, now)),
    {
        let t = self.task(slot);
        let n = self.replenished(slot, now);
        if t.state == State::Throttled && t.budget.due(now) {
            let m = self.with_task(slot, Tcb { budget: t.budget.replenished(now), ..t });
            assert(self.tasks[slot as int].priority < 32);
            self.lemma_fits_with_task(slot, m.task(slot));
            m.lemma_made_ready_stirred(slot, now);
            let k = m.made_ready(slot, now);
            scheduling::law_renewal_moves_the_boundary_on(t.budget, now);
            assert forall|x: usize| x < TASK_SLOT_COUNT implies self.stays_queued(n, x)
                && keeps_time(self.task(x), n.task(x)) && (#[trigger] n.task(x)) == k.task(x) by {
                assert(m.stays_queued(k, x)) by {
                    assert(k.task(x) == k.task(x));
                }
                assert(m.task(x).state == self.task(x).state);
                assert(m.task(x).priority == self.task(x).priority);
                if x != slot {
                    assert(k.task(x) == self.task(x));
                }
            }
        }
    }

    proof fn lemma_woken_upto_stirred(self, now: u64, n: nat)
        requires
            self.coherent(),
            n <= TASK_SLOT_COUNT,
        ensures
            self.stirred(self.woken_upto(now, n)),
        decreases n,
    {
        if n > 0 {
            let before = self.woken_upto(now, (n - 1) as nat);
            self.lemma_woken_upto_stirred(now, (n - 1) as nat);
            self.lemma_woken_upto(now, (n - 1) as nat);
            before.lemma_woken_stirred((n - 1) as usize, now);
            self.lemma_stirred_trans(before, self.woken_upto(now, n));
        }
    }

    proof fn lemma_replenished_upto_stirred(self, now: u64, n: nat)
        requires
            self.coherent(),
            n <= TASK_SLOT_COUNT,
        ensures
            self.stirred(self.replenished_upto(now, n)),
        decreases n,
    {
        if n > 0 {
            let before = self.replenished_upto(now, (n - 1) as nat);
            self.lemma_replenished_upto_stirred(now, (n - 1) as nat);
            self.lemma_replenished_upto(now, (n - 1) as nat);
            before.lemma_replenished_stirred((n - 1) as usize, now);
            self.lemma_stirred_trans(before, self.replenished_upto(now, n));
        }
    }

    pub(crate) proof fn lemma_all_woken_stirred(self, now: u64)
        requires
            self.coherent(),
        ensures
            self.stirred(self.all_woken(now)),
    {
        let m = self.woken_upto(now, TASK_SLOT_COUNT as nat);
        self.lemma_woken_upto_stirred(now, TASK_SLOT_COUNT as nat);
        self.lemma_woken_upto(now, TASK_SLOT_COUNT as nat);
        m.lemma_replenished_upto_stirred(now, TASK_SLOT_COUNT as nat);
        self.lemma_stirred_trans(m, self.all_woken(now));
    }
}

// ---- What priority inheritance leaves alone ---------------------------------
impl SchedModel {
    /// Every table has its size and every owner is a task.
    spec fn sized(self) -> bool {
        &&& self.tasks.len() == TASK_SLOT_COUNT
        &&& self.queues.len() == 96
        &&& self.mutex_owner.len() == 32
        &&& forall|x: int|
            0 <= x < 32 ==> #[trigger] self.mutex_owner[x] == NIL || self.mutex_owner[x]
                < TASK_SLOT_COUNT
        &&& forall|slot: usize|
            slot < TASK_SLOT_COUNT ==> {
                &&& (#[trigger] self.task(slot)).waiting_mutex <= 32
                &&& self.task(slot).priority < 32
                &&& self.task(slot).base_priority < 32
                &&& self.task(slot).waiting_sem <= 32
            }
    }

    /// Only priorities, donations, the order of queues and counters may differ.
    pub(crate) open spec fn posed_like(self, other: SchedModel) -> bool {
        &&& other.tasks.len() == self.tasks.len()
        &&& other.queues.len() == self.queues.len()
        &&& other.current == self.current
        &&& other.reservations == self.reservations
        &&& other.policy == self.policy
        &&& other.slot_generations == self.slot_generations
        &&& other.pending_switch == self.pending_switch
        &&& other.started == self.started
        &&& other.retired == self.retired
        &&& other.mutex_owner == self.mutex_owner
        &&& other.mutex_depth == self.mutex_depth
        &&& other.sem_counts == self.sem_counts
        &&& forall|slot: usize|
            slot < TASK_SLOT_COUNT ==> {
                &&& (#[trigger] other.task(slot)).state == self.task(slot).state
                &&& other.task(slot).waiting_mutex == self.task(slot).waiting_mutex
                &&& other.task(slot).waiting_sem == self.task(slot).waiting_sem
                &&& other.task(slot).granted_sem == self.task(slot).granted_sem
                &&& other.task(slot).granted_mutex == self.task(slot).granted_mutex
                &&& other.task(slot).sem_granted == self.task(slot).sem_granted
                &&& other.task(slot).base_priority == self.task(slot).base_priority
                &&& self.task(slot).priority < 32 ==> other.task(slot).priority < 32
                &&& other.task(slot).scheduler_lock_started_at == self.task(
                    slot,
                ).scheduler_lock_started_at
                &&& other.task(slot) == (Tcb {
                    priority: other.task(slot).priority,
                    inherited_waiters: other.task(slot).inherited_waiters,
                    ..self.task(slot)
                })
                &&& self.stays_queued(other, slot)
            }
    }

    proof fn lemma_posed_trans(self, b: SchedModel, c: SchedModel)
        requires
            self.posed_like(b),
            b.posed_like(c),
        ensures
            self.posed_like(c),
    {
        assert forall|slot: usize| slot < TASK_SLOT_COUNT implies {
            &&& (#[trigger] c.task(slot)).state == self.task(slot).state
            &&& c.task(slot).waiting_mutex == self.task(slot).waiting_mutex
        } by {
            assert(b.task(slot).state == b.task(slot).state);
        }
    }

    proof fn lemma_posed_sized(self, other: SchedModel)
        requires
            self.sized(),
            self.posed_like(other),
        ensures
            other.sized(),
    {
        assert forall|slot: usize| slot < TASK_SLOT_COUNT implies (#[trigger] other.task(
            slot,
        )).waiting_mutex <= 32 by {
            assert(self.task(slot).waiting_mutex <= 32);
        }
    }

    proof fn lemma_with_priority_posed(self, slot: usize, priority: u8)
        requires
            self.sized(),
            slot < TASK_SLOT_COUNT,
            priority < 32,
        ensures
            self.posed_like(self.with_priority(slot, priority)),
    {
        reveal(SchedModel::with_priority);
        let n = self.with_priority(slot, priority);
        let t = self.task(slot);
        let key = self.ready_key(slot);
        assert forall|x: usize| x < TASK_SLOT_COUNT && x != slot implies (#[trigger] n.task(x))
            == self.task(x) by {}
        lemma_others_left(self.queues[key], slot);
        let r = self.ready_removed(slot).with_priority_field(slot, priority);
        lemma_joined(r.queues[r.ready_key(slot)], slot);
        assert forall|x: usize| x < TASK_SLOT_COUNT implies self.stays_queued(
            n,
            x,
        ) && (#[trigger] n.task(x)).state == self.task(x).state by {
            if x != slot && self.task(x).state == State::Ready && self.ready_queued(x) {
                assert(r.ready_key(x) == self.ready_key(x));
                assert(n.ready_key(x) == self.ready_key(x));
                if t.state == State::Ready && self.ready_queued(slot) {
                    assert(r.queues[r.ready_key(x)].contains(x));
                }
            }
        }
    }

    proof fn lemma_with_donations_posed(self, slot: usize, level: u8, amount: u8)
        requires
            self.sized(),
            slot < TASK_SLOT_COUNT,
        ensures
            self.posed_like(self.with_donations(slot, level, amount)),
    {
    }

    proof fn lemma_refreshed_posed(self, slot: usize, fuel: nat)
        requires
            self.sized(),
            slot < TASK_SLOT_COUNT,
        ensures
            self.posed_like(self.refreshed(slot, fuel)),
        decreases fuel,
    {
        let t = self.task(slot);
        let new = t.effective();
        if fuel > 0 && t.priority != new {
            let m = self.with_priority(slot, new);
            t.lemma_best_counts(0);
            self.lemma_with_priority_posed(slot, new);
            if t.waiting_mutex != 0 {
                let queue = 64 + t.waiting_mutex - 1;
                let requeued = m.dequeued(queue, slot).enqueued(queue, slot);
                let owner = self.mutex_owner[t.waiting_mutex - 1];
                assert(self.task(slot).waiting_mutex <= 32);
                assert(m.posed_like(requeued));
                self.lemma_posed_trans(m, requeued);
                if owner != NIL {
                    self.lemma_posed_sized(requeued);
                    let a = requeued.with_donations(
                        owner,
                        t.priority,
                        (requeued.donations(owner, t.priority) - 1) as u8,
                    );
                    requeued.lemma_with_donations_posed(
                        owner,
                        t.priority,
                        (requeued.donations(owner, t.priority) - 1) as u8,
                    );
                    requeued.lemma_posed_sized(a);
                    let b = requeued.redonated(owner, t.priority, new);
                    a.lemma_with_donations_posed(
                        owner,
                        new,
                        (a.donations(owner, new) + 1) as u8,
                    );
                    requeued.lemma_posed_trans(a, b);
                    self.lemma_posed_trans(requeued, b);
                    self.lemma_posed_sized(b);
                    b.lemma_refreshed_posed(owner, (fuel - 1) as nat);
                    self.lemma_posed_trans(b, self.refreshed(slot, fuel));
                }
            }
        }
    }

    proof fn lemma_inheritance_removed_posed(self, owner: usize, level: u8)
        requires
            self.sized(),
            owner < TASK_SLOT_COUNT,
        ensures
            self.posed_like(self.inheritance_removed(owner, level)),
    {
        let m = self.undonated(owner, level);
        self.lemma_with_donations_posed(owner, level, (self.donations(owner, level) - 1) as u8);
        self.lemma_posed_sized(m);
        m.lemma_refreshed_posed(owner, TASK_SLOT_COUNT as nat);
        self.lemma_posed_trans(m, self.inheritance_removed(owner, level));
    }

    pub(crate) proof fn lemma_inheritance_added_posed(self, owner: usize, level: u8)
        requires
            self.fits(),
            owner < TASK_SLOT_COUNT,
        ensures
            self.posed_like(self.inheritance_added(owner, level)),
    {
        self.lemma_fits_sized();
        self.lemma_inheritance_added_posed_sized(owner, level);
    }

    proof fn lemma_inheritance_added_posed_sized(self, owner: usize, level: u8)
        requires
            self.sized(),
            owner < TASK_SLOT_COUNT,
        ensures
            self.posed_like(self.inheritance_added(owner, level)),
    {
        let d = self.with_donations(owner, level, (self.donations(owner, level) + 1) as u8);
        let m = self.donated(owner, level);
        self.lemma_with_donations_posed(owner, level, (self.donations(owner, level) + 1) as u8);
        assert(d.posed_like(m));
        self.lemma_posed_trans(d, m);
        self.lemma_posed_sized(m);
        m.lemma_refreshed_posed(owner, TASK_SLOT_COUNT as nat);
        self.lemma_posed_trans(m, self.inheritance_added(owner, level));
    }

    proof fn lemma_fits_sized(self)
        requires
            self.fits(),
        ensures
            self.sized(),
    {
        assert forall|slot: usize| slot < TASK_SLOT_COUNT implies (#[trigger] self.task(
            slot,
        )).waiting_mutex <= 32 by {
            assert(self.tasks[slot as int].waiting_mutex <= 32);
        }
    }

    proof fn lemma_shed_posed(self, owner: usize, s: Seq<usize>, k: nat)
        requires
            self.sized(),
            owner < TASK_SLOT_COUNT,
        ensures
            self.posed_like(self.shed(owner, s, k)),
        decreases k,
    {
        if k > 0 {
            let m = self.shed(owner, s, (k - 1) as nat);
            self.lemma_shed_posed(owner, s, (k - 1) as nat);
            self.lemma_posed_sized(m);
            m.lemma_inheritance_removed_posed(owner, m.task(s[k - 1]).priority);
            self.lemma_posed_trans(m, self.shed(owner, s, k));
        }
    }

    proof fn lemma_gathered_posed(self, owner: usize, s: Seq<usize>, k: nat)
        requires
            self.sized(),
            owner < TASK_SLOT_COUNT,
        ensures
            self.posed_like(self.gathered(owner, s, k)),
        decreases k,
    {
        if k > 0 {
            let m = self.gathered(owner, s, (k - 1) as nat);
            self.lemma_gathered_posed(owner, s, (k - 1) as nat);
            self.lemma_posed_sized(m);
            m.lemma_inheritance_added_posed_sized(owner, m.task(s[k - 1]).priority);
            self.lemma_posed_trans(m, self.gathered(owner, s, k));
        }
    }

    pub(crate) proof fn lemma_posed_stirred(self, other: SchedModel)
        requires
            self.posed_like(other),
        ensures
            self.stirred(other),
    {
    }

    /// A new owner that was blocked becomes ready, and nobody leaves a ready queue.
    proof fn lemma_mutex_handed_stirred(self, mutex: int, next: usize, now: u64)
        requires
            self.sized(),
            0 <= mutex < 32,
            next < TASK_SLOT_COUNT,
            self.task(next).state == State::Blocked,
        ensures
            self.stirred(self.mutex_handed(mutex, next, now)),
            self.mutex_handed(mutex, next, now).sized(),
    {
        let t = self.task(next);
        let m = self.with_mutex(mutex, next, 1).with_task(
            next,
            Tcb {
                granted_mutex: t.waiting_mutex,
                waiting_mutex: 0,
                wake_at: 0,
                sem_granted: true,
                ..t
            },
        );
        let n = self.mutex_handed(mutex, next, now);
        assert forall|x: usize| x < TASK_SLOT_COUNT && x != next implies (#[trigger] n.task(x))
            == self.task(x) by {}
        assert forall|x: usize| x < TASK_SLOT_COUNT implies (#[trigger] m.task(x)).priority
            < 32 by {
            assert(self.task(x).priority < 32);
        }
        m.lemma_made_ready_queued(next, now);
        assert forall|x: usize| x < TASK_SLOT_COUNT implies #[trigger] self.stays_queued(n, x) by {
            if x != next && self.ready_queued(x) {
                assert(m.task(x) == self.task(x));
                assert(m.ready_queued(x));
            }
        }
        assert forall|x: usize| x < TASK_SLOT_COUNT implies {
            &&& (#[trigger] n.task(x)).waiting_mutex <= 32
            &&& n.task(x).priority < 32
            &&& n.task(x).base_priority < 32
            &&& n.task(x).waiting_sem <= 32
        } by {
            assert(self.task(x).waiting_mutex <= 32);
        }
    }

    // ---- Releases wake, and nothing else --------------------------------------
    pub(crate) proof fn lemma_mutex_released_stirred(self, mutex: int, owner: usize, now: u64)
        requires
            self.coherent(),
            0 <= mutex < 32,
            owner < TASK_SLOT_COUNT,
        ensures
            self.stirred(self.mutex_released(mutex, owner, now)),
    {
        let waiters = self.mutex_waiters(mutex);
        let n = self.mutex_released(mutex, owner, now);
        self.lemma_fits_sized();
        if waiters.len() > 0 {
            let next = waiters[0];
            let rest = waiters.drop_first();
            assert(self.queues[64 + mutex].contains(next));
            assert(64 + mutex == self.home(next));
            self.lemma_member_is_task(64 + mutex, next);
            assert(self.task(next).waiting_mutex != 0 && self.task(next).state == State::Blocked)
                by {
                assert(self.tasks[next as int].priority < 32);
                assert(self.tasks[next as int].waiting_sem <= 32);
            }
            let left = self.dequeued(64 + mutex, next);
            assert(self.posed_like(left));
            self.lemma_posed_sized(left);
            let a = left.inheritance_removed(owner, self.task(next).priority);
            left.lemma_inheritance_removed_posed(owner, self.task(next).priority);
            left.lemma_posed_sized(a);
            let b = self.mutex_disowned(mutex, owner);
            a.lemma_shed_posed(owner, rest, rest.len());
            left.lemma_posed_trans(a, b);
            self.lemma_posed_trans(left, b);
            self.lemma_posed_sized(b);
            let c = b.mutex_handed(mutex, next, now);
            b.lemma_mutex_handed_stirred(mutex, next, now);
            self.lemma_posed_stirred(b);
            self.lemma_stirred_trans(b, c);
            c.lemma_gathered_posed(next, rest, rest.len());
            c.lemma_posed_stirred(n);
            self.lemma_stirred_trans(c, n);
        }
    }

    /// Releasing a mutex leaves the waits and grants of everybody but the new owner alone,
    /// and every semaphore.
    pub(crate) proof fn lemma_release_spares(self, mutex: int, owner: usize, now: u64, x: usize)
        requires
            self.coherent(),
            0 <= mutex < 32,
            owner < TASK_SLOT_COUNT,
            x < TASK_SLOT_COUNT,
            self.task(x).waiting_mutex == 0,
        ensures
            ({
                let n = self.mutex_released(mutex, owner, now);
                &&& n.task(x).waiting_sem == self.task(x).waiting_sem
                &&& n.task(x).waiting_mutex == 0
                &&& n.task(x).granted_sem == self.task(x).granted_sem
                &&& n.task(x).granted_mutex == self.task(x).granted_mutex
                &&& n.task(x).sem_granted == self.task(x).sem_granted
                &&& n.task(x).state == self.task(x).state
            }),
    {
        let waiters = self.mutex_waiters(mutex);
        if waiters.len() > 0 {
            let next = waiters[0];
            let rest = waiters.drop_first();
            self.lemma_fits_sized();
            assert(self.queues[64 + mutex].contains(next));
            assert(64 + mutex == self.home(next));
            self.lemma_member_is_task(64 + mutex, next);
            assert(self.task(next).waiting_mutex != 0) by {
                assert(self.tasks[next as int].priority < 32);
                assert(self.tasks[next as int].waiting_sem <= 32);
            }
            let left = self.dequeued(64 + mutex, next);
            assert(self.posed_like(left));
            self.lemma_posed_sized(left);
            let a = left.inheritance_removed(owner, self.task(next).priority);
            left.lemma_inheritance_removed_posed(owner, self.task(next).priority);
            left.lemma_posed_sized(a);
            let b = self.mutex_disowned(mutex, owner);
            a.lemma_shed_posed(owner, rest, rest.len());
            a.lemma_posed_sized(b);
            assert(b.task(next).state == State::Blocked) by {
                assert(a.task(next).state == State::Blocked);
            }
            let c = b.mutex_handed(mutex, next, now);
            b.lemma_mutex_handed_stirred(mutex, next, now);
            assert(c.task(x) == b.task(x));
            c.lemma_gathered_posed(next, rest, rest.len());
            assert(left.task(x) == self.task(x));
            assert(a.task(x).waiting_mutex == 0);
            assert(b.task(x).waiting_mutex == 0);
        }
    }

    /// A mutex with waiters goes to the first of them, which becomes ready.
    pub(crate) proof fn lemma_handed_to(self, mutex: int, owner: usize, now: u64)
        requires
            self.coherent(),
            0 <= mutex < 32,
            owner < TASK_SLOT_COUNT,
            self.mutex_waiters(mutex).len() > 0,
            self.mutex_waiters(mutex)[0] < TASK_SLOT_COUNT,
        ensures
            self.mutex_released(mutex, owner, now).mutex_owner[mutex] == self.mutex_waiters(
                mutex,
            )[0],
            self.mutex_released(mutex, owner, now).task(self.mutex_waiters(mutex)[0]).state
                == State::Ready,
            ({
                let u = self.mutex_released(mutex, owner, now).task(self.mutex_waiters(mutex)[0]);
                &&& u.sem_granted
                &&& u.granted_mutex == self.task(self.mutex_waiters(mutex)[0]).waiting_mutex
                &&& u.waiting_mutex == 0
                &&& u.wake_at == 0
            }),
            self.mutex_depth.len() == 32 ==> self.mutex_released(
                mutex,
                owner,
                now,
            ).mutex_depth[mutex] == 1,
    {
        let waiters = self.mutex_waiters(mutex);
        let next = waiters[0];
        let rest = waiters.drop_first();
        self.lemma_fits_sized();
        let left = self.dequeued(64 + mutex, next);
        assert(self.posed_like(left));
        self.lemma_posed_sized(left);
        let a = left.inheritance_removed(owner, self.task(next).priority);
        left.lemma_inheritance_removed_posed(owner, self.task(next).priority);
        left.lemma_posed_sized(a);
        let b = self.mutex_disowned(mutex, owner);
        a.lemma_shed_posed(owner, rest, rest.len());
        a.lemma_posed_sized(b);
        let c = b.mutex_handed(mutex, next, now);
        assert(c.task(next).state == State::Ready);
        b.lemma_mutex_handed_stirred(mutex, next, now);
        c.lemma_gathered_posed(next, rest, rest.len());
        assert(b.task(next).waiting_mutex == a.task(next).waiting_mutex);
        assert(a.task(next).waiting_mutex == left.task(next).waiting_mutex);
        let n = self.mutex_released(mutex, owner, now);
        assert(n.task(next).state == c.task(next).state);
    }

    /// Members of queues are tasks.
    pub(crate) proof fn lemma_member_is_task(self, queue: int, slot: usize)
        requires
            self.coherent(),
            0 <= queue < 96,
            self.queues[queue].contains(slot),
        ensures
            slot < TASK_SLOT_COUNT,
    {
    }

    pub(crate) proof fn lemma_sem_released_stirred(self, sem: int, now: u64)
        requires
            self.coherent(),
            0 <= sem < 32,
        ensures
            self.stirred(self.sem_released(sem, now)),
    {
        if self.sem_waiters(sem).len() > 0 {
            let waiter = self.sem_waiters(sem)[0];
            assert(self.queues[32 + sem].contains(waiter));
            assert(32 + sem == self.home(waiter));
            self.lemma_member_is_task(32 + sem, waiter);
            assert(self.tasks[waiter as int].priority < 32);
            assert(self.tasks[waiter as int].waiting_mutex <= 32);
            assert(self.task(waiter).waiting_sem != 0 && self.task(waiter).state
                == State::Blocked);
            let n = self.sem_released(sem, now);
            let t = self.task(waiter);
            let m = self.dequeued(32 + sem, waiter).with_task(
                waiter,
                Tcb {
                    wake_at: 0,
                    granted_sem: t.waiting_sem,
                    waiting_sem: 0,
                    sem_granted: true,
                    ..t
                },
            );
            assert forall|x: usize| x < TASK_SLOT_COUNT && x != waiter implies (#[trigger] n.task(
                x,
            )) == self.task(x) by {}
            assert forall|x: usize| x < TASK_SLOT_COUNT implies (#[trigger] m.task(x)).priority
                < 32 by {
                assert(self.tasks[x as int].priority < 32);
            }
            m.lemma_made_ready_queued(waiter, now);
            assert forall|x: usize| x < TASK_SLOT_COUNT implies #[trigger] self.stays_queued(
                n,
                x,
            ) by {
                if x != waiter && self.ready_queued(x) {
                    assert(m.task(x) == self.task(x));
                    assert(m.ready_queued(x));
                    assert(m.made_ready(waiter, now).ready_queued(x));
                }
            }
        }
    }

    pub(crate) proof fn lemma_wait_cancelled_stirred(self, slot: usize, now: u64)
        requires
            self.coherent(),
            slot < TASK_SLOT_COUNT,
        ensures
            self.stirred(self.wait_cancelled(slot, now).0),
    {
        let t = self.task(slot);
        let n = self.wait_cancelled(slot, now).0;
        assert(self.tasks[slot as int].granted_sem <= 32);
        assert(self.tasks[slot as int].granted_mutex <= 32);
        assert(self.tasks[slot as int].base_priority < 32);
        if t.waiting_sem != 0 {
            let m = self.sem_wait_left(slot);
            self.lemma_sem_wait_left(slot);
            m.lemma_made_ready_stirred(slot, now);
            assert forall|x: usize| x < TASK_SLOT_COUNT implies (#[trigger] m.task(x)).state
                == self.task(x).state by {}
            self.lemma_stirred_trans(m, n);
        } else if t.waiting_mutex != 0 {
            let m = self.mutex_wait_left(slot);
            self.lemma_mutex_wait_left_stirred(slot);
            self.lemma_mutex_wait_left(slot);
            m.lemma_made_ready_stirred(slot, now);
            self.lemma_stirred_trans(m, n);
        } else if t.granted_sem != 0 {
            let t2 = Tcb { granted_sem: 0, sem_granted: false, ..t };
            let m = self.with_task(slot, t2);
            self.lemma_grant_dropped(slot, t2);
            m.lemma_sem_released_stirred(t.granted_sem - 1, now);
            assert(self.stirred(m));
            self.lemma_stirred_trans(m, n);
        } else if t.granted_mutex != 0 {
            let t2 = Tcb { granted_mutex: 0, sem_granted: false, ..t };
            let mutex = t.granted_mutex - 1;
            let a = self.with_task(slot, t2);
            self.lemma_grant_dropped(slot, t2);
            let m = a.with_mutex(mutex, slot, 0);
            assert(self.mutex_owner[mutex] == slot);
            assert(m.mutex_owner =~= a.mutex_owner);
            a.lemma_coherent_frame(m);
            m.lemma_mutex_released_stirred(mutex, slot, now);
            assert(self.stirred(m));
            self.lemma_stirred_trans(m, n);
        }
    }

    /// Forgetting a grant disturbs nothing.
    proof fn lemma_grant_dropped(self, slot: usize, task: Tcb)
        requires
            self.coherent(),
            slot < TASK_SLOT_COUNT,
            self.task(slot).waiting_sem == 0,
            self.task(slot).waiting_mutex == 0,
            task == (Tcb {
                granted_sem: task.granted_sem,
                granted_mutex: task.granted_mutex,
                sem_granted: task.sem_granted,
                ..self.task(slot)
            }),
            task.granted_sem <= 32,
            task.granted_mutex == 0 || task.granted_mutex == self.task(slot).granted_mutex,
        ensures
            self.with_task(slot, task).coherent(),
    {
        assert(self.tasks[slot as int].base_priority < 32);
        assert(self.tasks[slot as int].priority < 32);
        if self.ready_queued(slot) {
            assert(self.queues[self.ready_key(slot)].contains(slot));
        }
        self.lemma_tweak_coherent(slot, task);
    }
}

// ---- How far a refresh reaches ----------------------------------------------------
impl SchedModel {
    /// Refreshing `slot` gets as far as `x`: `x` is `slot` itself, or the priority of
    /// `slot` changes and what it then passes on to the owner that it waits for gets as far.
    pub open spec fn refresh_reaches(self, slot: usize, fuel: nat, x: usize) -> bool
        decreases fuel,
    {
        let t = self.task(slot);
        let new = t.effective();
        x == slot || (fuel > 0 && t.priority != new && match self.blocker(slot) {
            Some(owner) => {
                let queue = 64 + t.waiting_mutex - 1;
                self.with_priority(slot, new).dequeued(queue, slot).enqueued(
                    queue,
                    slot,
                ).redonated(owner, t.priority, new).refresh_reaches(owner, (fuel - 1) as nat, x)
            },
            None => false,
        })
    }

    /// Every owner ranks below those that wait for it.
    spec fn graded(self, rank: spec_fn(usize) -> nat) -> bool {
        forall|x: usize|
            x < TASK_SLOT_COUNT && (#[trigger] self.blocker(x)) is Some ==> rank(
                self.blocker(x)->0,
            ) < rank(x)
    }

    /// What `x` passes on to the owner that it waits for when its priority has changed:
    /// one donation fewer of the old priority and one more of the new.
    pub open spec fn passed_on(self, other: SchedModel, x: usize) -> bool {
        let a = self.task(x).priority;
        let b = other.task(x).priority;
        a != b ==> match self.blocker(x) {
            Some(o) => {
                &&& other.donations(o, a) == self.donations(o, a) - 1
                &&& other.donations(o, b) == self.donations(o, b) + 1
            },
            None => true,
        }
    }

    proof fn lemma_refresh_reach(self, slot: usize, fuel: nat, rank: spec_fn(usize) -> nat)
        requires
            self.sized(),
            slot < TASK_SLOT_COUNT,
            self.refreshable(slot, fuel),
            self.graded(rank),
        ensures
            forall|x: usize|
                x < TASK_SLOT_COUNT && #[trigger] self.refresh_reaches(slot, fuel, x) ==> {
                    &&& rank(x) <= rank(slot)
                    &&& self.refreshed(slot, fuel).settled(x)
                    &&& self.passed_on(self.refreshed(slot, fuel), x)
                },
            forall|x: usize|
                x < TASK_SLOT_COUNT && !#[trigger] self.refresh_reaches(slot, fuel, x)
                    ==> self.refreshed(slot, fuel).task(x) == self.task(x),
            self.refreshed(slot, fuel).task(slot).inherited_waiters == self.task(
                slot,
            ).inherited_waiters,
        decreases fuel,
    {
        let t = self.task(slot);
        let new = t.effective();
        let n = self.refreshed(slot, fuel);
        if t.priority != new {
            let m = self.with_priority(slot, new);
            t.lemma_best_counts(0);
            self.lemma_with_priority_posed(slot, new);
            assert(m.tasks == self.tasks.update(slot as int, Tcb { priority: new, ..t })) by {
                reveal(SchedModel::with_priority);
            }
            inheritance::lemma_best_donation_same(m.task(slot), t, 0);
            assert(m.settled(slot));
            if t.waiting_mutex != 0 {
                let queue = 64 + t.waiting_mutex - 1;
                let requeued = m.dequeued(queue, slot).enqueued(queue, slot);
                let owner = self.mutex_owner[t.waiting_mutex - 1];
                assert(self.task(slot).waiting_mutex <= 32);
                assert(m.posed_like(requeued));
                self.lemma_posed_trans(m, requeued);
                assert(requeued.tasks == m.tasks);
                if owner != NIL {
                    assert(self.blocker(slot) == Some(owner));
                    assert(rank(owner) < rank(slot));
                    self.lemma_posed_sized(requeued);
                    let a = requeued.with_donations(
                        owner,
                        t.priority,
                        (requeued.donations(owner, t.priority) - 1) as u8,
                    );
                    let b = requeued.redonated(owner, t.priority, new);
                    requeued.lemma_with_donations_posed(
                        owner,
                        t.priority,
                        (requeued.donations(owner, t.priority) - 1) as u8,
                    );
                    requeued.lemma_posed_sized(a);
                    a.lemma_with_donations_posed(owner, new, (a.donations(owner, new) + 1) as u8);
                    requeued.lemma_posed_trans(a, b);
                    self.lemma_posed_trans(requeued, b);
                    self.lemma_posed_sized(b);
                    assert forall|x: usize| x < TASK_SLOT_COUNT && x != owner implies (
                    #[trigger] b.task(x)) == m.task(x) by {}
                    assert(b.donations(owner, t.priority) == self.donations(owner, t.priority) - 1);
                    assert(b.donations(owner, new) == self.donations(owner, new) + 1);
                    assert forall|x: usize| x < TASK_SLOT_COUNT implies #[trigger] b.blocker(x)
                        == self.blocker(x) by {
                        assert(b.task(x).waiting_mutex == self.task(x).waiting_mutex);
                    }
                    assert(b.graded(rank)) by {
                        assert forall|x: usize|
                            x < TASK_SLOT_COUNT && (#[trigger] b.blocker(x)) is Some implies rank(
                            b.blocker(x)->0,
                        ) < rank(x) by {
                            assert(self.blocker(x) is Some);
                        }
                    }
                    b.lemma_refresh_reach(owner, (fuel - 1) as nat, rank);
                    let f = (fuel - 1) as nat;
                    assert(n == b.refreshed(owner, f));
                    assert(b.refresh_reaches(owner, f, owner));
                    if b.refresh_reaches(owner, f, slot) {
                        assert(rank(slot) <= rank(owner));
                    }
                    assert(n.task(slot) == b.task(slot));
                    assert(b.task(slot) == m.task(slot));
                    assert forall|x: usize|
                        x < TASK_SLOT_COUNT && #[trigger] self.refresh_reaches(
                            slot,
                            fuel,
                            x,
                        ) implies {
                        &&& rank(x) <= rank(slot)
                        &&& n.settled(x)
                        &&& self.passed_on(n, x)
                    } by {
                        if x == slot {
                            assert(n.donations(owner, t.priority) == b.donations(
                                owner,
                                t.priority,
                            ));
                            assert(n.donations(owner, new) == b.donations(owner, new));
                        } else {
                            assert(b.refresh_reaches(owner, f, x));
                            assert(b.passed_on(n, x));
                            assert(m.task(x) == self.task(x));
                            assert(b.task(x).priority == self.task(x).priority);
                            assert(b.blocker(x) == self.blocker(x));
                            if self.blocker(x) is Some {
                                let o = self.blocker(x)->0;
                                assert(rank(o) < rank(x));
                                assert(rank(x) <= rank(owner));
                                assert(o < TASK_SLOT_COUNT) by {
                                    assert(self.task(x).waiting_mutex <= 32);
                                }
                                assert(b.task(o) == m.task(o));
                                assert(b.task(o).inherited_waiters == self.task(
                                    o,
                                ).inherited_waiters);
                            }
                        }
                    }
                    assert forall|x: usize|
                        x < TASK_SLOT_COUNT && !#[trigger] self.refresh_reaches(
                            slot,
                            fuel,
                            x,
                        ) implies n.task(x) == self.task(x) by {
                        assert(!b.refresh_reaches(owner, f, x));
                        assert(x != owner);
                        assert(m.task(x) == self.task(x));
                    }
                }
            }
        }
    }

    /// The number of owners on the chain from `slot`.
    spec fn chain_length(self, slot: usize, fuel: nat) -> nat
        decreases fuel,
    {
        if fuel == 0 {
            0
        } else {
            match self.blocker(slot) {
                Some(owner) => 1 + self.chain_length(owner, (fuel - 1) as nat),
                None => 0,
            }
        }
    }

    /// A chain that ends has the same length however long one looks.
    proof fn lemma_chain_length(self, slot: usize, fuel: nat, more: nat)
        requires
            self.chain_live(slot, fuel),
            fuel <= more,
        ensures
            self.chain_length(slot, fuel) == self.chain_length(slot, more),
        decreases fuel,
    {
        if let Some(owner) = self.blocker(slot) {
            self.lemma_chain_length(owner, (fuel - 1) as nat, (more - 1) as nat);
        }
    }

    /// Refreshing a task settles it, and where its priority changes also the owner that it
    /// waits for, and so on along the chain of owners: every task that is reached has the
    /// best of its base priority and its donations, each change is passed on as one
    /// donation fewer of the old priority and one more of the new, nobody else changes,
    /// and wait queues that stood by priority still do.
    pub proof fn law_refresh_settles_the_chain(self, slot: usize)
        requires
            self.coherent(),
            slot < TASK_SLOT_COUNT,
        ensures
            ({
                let fuel = TASK_SLOT_COUNT as nat;
                let n = self.refreshed(slot, fuel);
                &&& n.settled(slot)
                &&& forall|x: usize|
                    x < TASK_SLOT_COUNT && #[trigger] self.refresh_reaches(slot, fuel, x) ==> {
                        &&& n.settled(x)
                        &&& self.passed_on(n, x)
                        &&& self.task(x).priority != n.task(x).priority && self.blocker(x) is Some
                            ==> n.settled(self.blocker(x)->0)
                    }
                &&& forall|x: usize|
                    x < TASK_SLOT_COUNT && !#[trigger] self.refresh_reaches(slot, fuel, x)
                        ==> n.task(x) == self.task(x)
                &&& n.exact()
                &&& self.all_by_priority() ==> n.all_by_priority()
            }),
    {
        let fuel = TASK_SLOT_COUNT as nat;
        let n = self.refreshed(slot, fuel);
        self.lemma_waits_sems();
        assert(self.chain_live(slot, fuel));
        self.lemma_refreshed(slot, fuel);
        self.lemma_fits_sized();
        let rank = |x: usize| self.chain_length(x, fuel);
        assert forall|x: usize|
            x < TASK_SLOT_COUNT && (#[trigger] self.blocker(x)) is Some implies rank(
            self.blocker(x)->0,
        ) < rank(x) by {
            let o = self.blocker(x)->0;
            assert(self.chain_live(x, fuel));
            self.lemma_chain_length(o, (fuel - 1) as nat, fuel);
        }
        self.lemma_refresh_reach(slot, fuel, rank);
        assert(self.refresh_reaches(slot, fuel, slot));
        assert forall|x: usize|
            x < TASK_SLOT_COUNT && #[trigger] self.refresh_reaches(slot, fuel, x) && self.task(
                x,
            ).priority != n.task(x).priority && self.blocker(x) is Some implies n.settled(
            self.blocker(x)->0,
        ) by {
            self.lemma_reach_goes_on(slot, fuel, x, rank);
        }
    }

    /// Whoever is reached and changes reaches the owner that it waits for.
    proof fn lemma_reach_goes_on(
        self,
        slot: usize,
        fuel: nat,
        x: usize,
        rank: spec_fn(usize) -> nat,
    )
        requires
            self.sized(),
            slot < TASK_SLOT_COUNT,
            x < TASK_SLOT_COUNT,
            self.refreshable(slot, fuel),
            self.graded(rank),
            self.refresh_reaches(slot, fuel, x),
            self.task(x).priority != self.refreshed(slot, fuel).task(x).priority,
            self.blocker(x) is Some,
        ensures
            self.refresh_reaches(slot, fuel, self.blocker(x)->0),
            self.blocker(x)->0 < TASK_SLOT_COUNT,
            self.refreshed(slot, fuel).settled(self.blocker(x)->0),
        decreases fuel,
    {
        let t = self.task(slot);
        let new = t.effective();
        let n = self.refreshed(slot, fuel);
        let o = self.blocker(x)->0;
        assert(o < TASK_SLOT_COUNT) by {
            assert(self.task(x).waiting_mutex <= 32);
        }
        self.lemma_refresh_reach(slot, fuel, rank);
        if x == slot {
            let queue = 64 + t.waiting_mutex - 1;
            assert(self.with_priority(slot, new).dequeued(queue, slot).enqueued(
                queue,
                slot,
            ).redonated(o, t.priority, new).refresh_reaches(o, (fuel - 1) as nat, o));
            assert(self.refresh_reaches(slot, fuel, o));
        } else {
            let owner = self.blocker(slot)->0;
            let queue = 64 + t.waiting_mutex - 1;
            let m = self.with_priority(slot, new);
            let requeued = m.dequeued(queue, slot).enqueued(queue, slot);
            let b = requeued.redonated(owner, t.priority, new);
            t.lemma_best_counts(0);
            self.lemma_with_priority_posed(slot, new);
            assert(self.task(slot).waiting_mutex <= 32);
            assert(m.posed_like(requeued));
            self.lemma_posed_trans(m, requeued);
            self.lemma_posed_sized(requeued);
            let a = requeued.with_donations(
                owner,
                t.priority,
                (requeued.donations(owner, t.priority) - 1) as u8,
            );
            requeued.lemma_with_donations_posed(
                owner,
                t.priority,
                (requeued.donations(owner, t.priority) - 1) as u8,
            );
            requeued.lemma_posed_sized(a);
            a.lemma_with_donations_posed(owner, new, (a.donations(owner, new) + 1) as u8);
            requeued.lemma_posed_trans(a, b);
            self.lemma_posed_trans(requeued, b);
            self.lemma_posed_sized(b);
            assert forall|y: usize| y < TASK_SLOT_COUNT implies #[trigger] b.blocker(y)
                == self.blocker(y) by {
                assert(b.task(y).waiting_mutex == self.task(y).waiting_mutex);
            }
            assert(b.graded(rank)) by {
                assert forall|y: usize|
                    y < TASK_SLOT_COUNT && (#[trigger] b.blocker(y)) is Some implies rank(
                    b.blocker(y)->0,
                ) < rank(y) by {
                    assert(self.blocker(y) is Some);
                }
            }
            assert(b.task(x).priority == self.task(x).priority) by {
                reveal(SchedModel::with_priority);
            }
            b.lemma_reach_goes_on(owner, (fuel - 1) as nat, x, rank);
            assert(self.refresh_reaches(slot, fuel, o));
        }
    }
}

} // verus!
