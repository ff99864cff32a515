//! What every reachable scheduler state has in common, and why priority
//! inheritance keeps it.
use vstd::prelude::*;
use crate::config::{NIL, TASK_SLOT_COUNT};
use crate::inheritance;
use crate::links;
use crate::model::SchedModel;
use crate::task::{State, Tcb};

verus! {

/// How many of the slots below `n` satisfy `f`.
pub open spec fn count(f: spec_fn(usize) -> bool, n: nat) -> nat
    decreases n,
{
    if n == 0 {
        0
    } else {
        count(f, (n - 1) as nat) + (if f((n - 1) as usize) {
            1nat
        } else {
            0nat
        })
    }
}

/// Two properties that differ at most at `slot` have counts that differ at most by
/// that slot.
pub(crate) proof fn lemma_count_change(
    f: spec_fn(usize) -> bool,
    g: spec_fn(usize) -> bool,
    slot: usize,
    n: nat,
)
    requires
        n <= usize::MAX,
        forall|x: usize| x < n && x != slot ==> #[trigger] f(x) == g(x),
    ensures
        slot < n ==> count(g, n) + (if f(slot) {
            1int
        } else {
            0int
        }) == count(f, n) + (if g(slot) {
            1int
        } else {
            0int
        }),
        slot >= n ==> count(g, n) == count(f, n),
    decreases n,
{
    if n > 0 {
        lemma_count_change(f, g, slot, (n - 1) as nat);
        let top = (n - 1) as usize;
        if top != slot {
            assert(f(top) == g(top));
        }
    }
}

/// A property with a witness counts at least one, and none counts more than all.
pub(crate) proof fn lemma_count_bounds(f: spec_fn(usize) -> bool, n: nat)
    requires
        n <= usize::MAX,
    ensures
        count(f, n) <= n,
        forall|x: usize| x < n && #[trigger] f(x) ==> count(f, n) > 0,
        count(f, n) > 0 ==> exists|x: usize| x < n && #[trigger] f(x),
    decreases n,
{
    if n > 0 {
        lemma_count_bounds(f, (n - 1) as nat);
        let top = (n - 1) as usize;
        assert forall|x: usize| x < n && #[trigger] f(x) implies count(f, n) > 0 by {
            if x == top {
                assert(f(top));
            }
        }
        if count(f, n) > 0 {
            if f(top) {
                assert(top < n && f(top));
            } else {
                let x = choose|x: usize| x < n - 1 && #[trigger] f(x);
                assert(x < n && f(x));
            }
        }
    }
}

impl SchedModel {
    /// `slot` is queued on a mutex of `owner` and has effective priority `level`.
    pub open spec fn donates(self, slot: usize, owner: usize, level: u8) -> bool {
        let t = self.task(slot);
        &&& t.waiting_mutex != 0
        &&& self.queues[64 + t.waiting_mutex - 1].contains(slot)
        &&& self.mutex_owner[t.waiting_mutex - 1] == owner
        &&& t.priority == level
    }

    /// How many waiters donate `level` to `owner`.
    pub open spec fn donors(self, owner: usize, level: u8) -> nat {
        count(|slot: usize| self.donates(slot, owner, level), TASK_SLOT_COUNT as nat)
    }

    /// The donation counters of every task count its donors exactly.
    pub open spec fn exact(self) -> bool {
        forall|owner: usize, level: u8|
            owner < TASK_SLOT_COUNT && level < 32 ==> #[trigger] self.donations(owner, level)
                == self.donors(owner, level)
    }

    /// The owner of the mutex that `slot` waits for, if there is one.
    pub open spec fn blocker(self, slot: usize) -> Option<usize> {
        let w = self.task(slot).waiting_mutex;
        if w == 0 || self.mutex_owner[w - 1] == NIL {
            None
        } else {
            Some(self.mutex_owner[w - 1])
        }
    }

    /// Every task on the chain of owners from `slot` is queued where it waits, and
    /// the chain ends within `fuel` tasks.
    pub open spec fn chain_live(self, slot: usize, fuel: nat) -> bool
        decreases fuel,
    {
        if fuel == 0 {
            false
        } else if self.task(slot).waiting_mutex == 0 {
            true
        } else {
            &&& self.queues[64 + self.task(slot).waiting_mutex - 1].contains(slot)
            &&& match self.blocker(slot) {
                Some(owner) => self.chain_live(owner, (fuel - 1) as nat),
                None => true,
            }
        }
    }

    /// The effective priority of `slot` is what its donations call for.
    pub open spec fn settled(self, slot: usize) -> bool {
        self.task(slot).priority == self.task(slot).effective()
    }

    /// The waiters in queue `q` stand by priority.
    pub open spec fn by_priority(self, q: int) -> bool {
        ordered(self.tasks, self.queues[q])
    }

    /// Only priorities, donations and the order within queues differ.
    pub open spec fn kin(self, other: SchedModel) -> bool {
        &&& self.fits()
        &&& other.fits()
        &&& other =~= (SchedModel { tasks: other.tasks, queues: other.queues, ..self })
        &&& forall|i: int|
            0 <= i < TASK_SLOT_COUNT ==> #[trigger] other.tasks[i] == (Tcb {
                priority: other.tasks[i].priority,
                inherited_waiters: other.tasks[i].inherited_waiters,
                ..self.tasks[i]
            })
        &&& forall|q: int, slot: usize|
            32 <= q < 96 ==> (#[trigger] other.queues[q].contains(slot)
                <==> self.queues[q].contains(slot))
        &&& forall|slot: usize|
            slot < TASK_SLOT_COUNT ==> (#[trigger] other.ready_queued(slot)
                <==> self.ready_queued(slot))
    }
}

/// The members of `s` stand by priority.
pub open spec fn ordered(tasks: Seq<Tcb>, s: Seq<usize>) -> bool {
    forall|i: int, j: int|
        #![trigger s[i], s[j]]
        0 <= i < j < s.len() ==> tasks[s[i] as int].priority <= tasks[s[j] as int].priority
}

/// Joining by priority keeps the order.
pub proof fn lemma_enqueued_ordered(tasks: Seq<Tcb>, s: Seq<usize>, slot: usize)
    requires
        ordered(tasks, s),
    ensures
        ordered(tasks, links::enqueued(tasks, s, slot)),
{
    let p = tasks[slot as int].priority;
    let k = links::rank(tasks, s, p) as int;
    links::lemma_rank(tasks, s, p);
    let t = s.insert(k, slot);
    assert forall|i: int, j: int|
        #![trigger t[i], t[j]]
        0 <= i < j < t.len() implies tasks[t[i] as int].priority <= tasks[t[j] as int].priority by {
        let a = if i < k {
            i
        } else {
            i - 1
        };
        let b = if j < k {
            j
        } else {
            j - 1
        };
        if i != k {
            assert(t[i] == s[a]);
        }
        if j != k {
            assert(t[j] == s[b]);
        }
        if i == k {
            assert(tasks[s[k] as int].priority > p);
            if b > k {
                assert(tasks[s[k] as int].priority <= tasks[s[b] as int].priority);
            }
        } else if j == k {
            assert(tasks[s[a] as int].priority <= p);
        } else {
            assert(a < b);
        }
    }
}

/// Leaving keeps the order of the rest, whatever the leaver's priority becomes.
pub proof fn lemma_without_ordered(
    before: Seq<Tcb>,
    after: Seq<Tcb>,
    s: Seq<usize>,
    slot: usize,
)
    requires
        ordered(before, s),
        s.no_duplicates(),
        forall|x: usize|
            x != slot && s.contains(x) ==> #[trigger] after[x as int].priority
                == before[x as int].priority,
    ensures
        ordered(after, links::without(s, slot)),
{
    let t = links::without(s, slot);
    links::lemma_without(s, slot);
    let k = if s.contains(slot) {
        s.index_of(slot)
    } else {
        s.len() as int
    };
    assert forall|i: int, j: int|
        #![trigger t[i], t[j]]
        0 <= i < j < t.len() implies after[t[i] as int].priority <= after[t[j] as int].priority by {
        let a = if i < k {
            i
        } else {
            i + 1
        };
        let b = if j < k {
            j
        } else {
            j + 1
        };
        assert(t[i] == s[a] && t[j] == s[b]);
        assert(s.contains(s[a]) && s.contains(s[b]));
        assert(t.contains(t[i]) && t.contains(t[j]));
        assert(a < b);
    }
}

impl SchedModel {
    /// The structural part of what every reachable state satisfies.
    pub open spec fn sound(self) -> bool {
        &&& self.fits()
        &&& self.placed()
        &&& self.distinct()
        &&& self.waits_once()
    }

    /// Every wait queue stands by priority.
    pub open spec fn all_by_priority(self) -> bool {
        forall|q: int| 32 <= q < 96 ==> #[trigger] self.by_priority(q)
    }

    pub(crate) proof fn lemma_dequeued_distinct(self, queue: int, slot: usize)
        requires
            self.distinct(),
            self.queues.len() == 96,
            0 <= queue < 96,
        ensures
            self.dequeued(queue, slot).distinct(),
            forall|q: int, x: usize|
                0 <= q < 96 && #[trigger] self.dequeued(queue, slot).queues[q].contains(x)
                    ==> self.queues[q].contains(x),
            forall|q: int, x: usize|
                #![trigger self.dequeued(queue, slot).queues[q].contains(x)]
                0 <= q < 96 && (x != slot || q != queue) && self.queues[q].contains(x)
                    ==> self.dequeued(queue, slot).queues[q].contains(x),
            !self.dequeued(queue, slot).queues[queue].contains(slot),
    {
        let m = self.dequeued(queue, slot);
        links::lemma_without(self.queues[queue], slot);
        assert forall|q: int, x: usize|
            0 <= q < 96 && #[trigger] m.queues[q].contains(x) implies self.queues[q].contains(x) by {
            if q == queue {
                if x == slot {
                    assert(false);
                }
            }
        }
        assert forall|p: int, q: int, x: usize|
            #![trigger m.queues[p].contains(x), m.queues[q].contains(x)]
            0 <= p < 96 && 0 <= q < 96 && m.queues[p].contains(x) && m.queues[q].contains(
                x,
            ) implies p == q by {
            assert(self.queues[p].contains(x) && self.queues[q].contains(x));
        }
    }

    pub(crate) proof fn lemma_joined_distinct(self, queue: int, slot: usize, members: Seq<usize>)
        requires
            self.distinct(),
            self.queues.len() == 96,
            0 <= queue < 96,
            self.loose(slot),
            slot < TASK_SLOT_COUNT,
            members.no_duplicates(),
            forall|x: usize| #[trigger]
                members.contains(x) <==> (x == slot || self.queues[queue].contains(x)),
        ensures
            self.with_queue(queue, members).distinct(),
    {
        let m = self.with_queue(queue, members);
        assert forall|q: int, x: usize|
            0 <= q < 96 && #[trigger] m.queues[q].contains(x) implies x < TASK_SLOT_COUNT by {
            if x != slot {
                assert(self.queues[q].contains(x));
            }
        }
        assert forall|p: int, q: int, x: usize|
            #![trigger m.queues[p].contains(x), m.queues[q].contains(x)]
            0 <= p < 96 && 0 <= q < 96 && m.queues[p].contains(x) && m.queues[q].contains(
                x,
            ) implies p == q by {
            if x == slot {
                assert(!self.queues[p].contains(x) && !self.queues[q].contains(x));
            } else {
                assert(self.queues[p].contains(x) && self.queues[q].contains(x));
            }
        }
    }

    pub(crate) proof fn lemma_pushed_distinct(self, slot: usize)
        requires
            self.distinct(),
            self.fits(),
            self.loose(slot),
            slot < TASK_SLOT_COUNT,
        ensures
            self.pushed(slot).distinct(),
    {
        assert(self.tasks[slot as int].priority < 32);
        let key = self.ready_key(slot);
        assert(!self.queues[key].contains(slot));
        links::lemma_appended(self.queues[key], slot);
        self.lemma_joined_distinct(key, slot, self.queues[key].push(slot));
    }

    pub(crate) proof fn lemma_enqueued_distinct(self, queue: int, slot: usize)
        requires
            self.distinct(),
            self.queues.len() == 96,
            0 <= queue < 96,
            self.loose(slot),
            slot < TASK_SLOT_COUNT,
        ensures
            self.enqueued(queue, slot).distinct(),
    {
        assert(!self.queues[queue].contains(slot));
        self.lemma_enqueued_members(queue, slot);
        self.lemma_joined_distinct(
            queue,
            slot,
            links::enqueued(self.tasks, self.queues[queue], slot),
        );
    }

    /// A priority change keeps the structure and moves nobody out of a queue.
    pub(crate) proof fn lemma_with_priority_kin(self, slot: usize, priority: u8)
        requires
            self.sound(),
            slot < TASK_SLOT_COUNT,
            priority < 32,
            self.task(slot).waiting_sem != 0 ==> self.queues[32 + self.task(slot).waiting_sem
                - 1].contains(slot) && self.task(slot).state != State::Ready,
        ensures
            self.with_priority(slot, priority).sound(),
            self.kin(self.with_priority(slot, priority)),
            forall|q: int| 64 <= q < 96 ==> #[trigger] self.with_priority(slot, priority).queues[q]
                == self.queues[q],
            self.all_by_priority() ==> forall|q: int|
                32 <= q < 64 ==> #[trigger] self.with_priority(slot, priority).by_priority(q),
    {
        self.lemma_with_priority_placed(slot, priority);
        self.lemma_with_priority_frame(slot, priority);
        reveal(SchedModel::with_priority);
        let m = self.with_priority(slot, priority);
        let t = self.task(slot);
        assert(self.tasks[slot as int].priority < 32);
        let key = self.ready_key(slot);
        assert(m.waits_once()) by {
            assert forall|i: int| 0 <= i < TASK_SLOT_COUNT implies (
            #[trigger] m.tasks[i]).waiting_sem == 0 || m.tasks[i].waiting_mutex == 0 by {
                assert(self.tasks[i].waiting_sem == 0 || self.tasks[i].waiting_mutex == 0);
            }
        }
        if t.priority == priority {
        } else if t.state == State::Ready && self.ready_queued(slot) {
            let m1 = self.ready_removed(slot);
            self.lemma_dequeued_distinct(key, slot);
            let m2 = m1.with_priority_field(slot, priority);
            assert(m2.distinct());
            assert(m2.loose(slot)) by {
                assert forall|q: int| 0 <= q < 96 implies !(#[trigger] m2.queues[q]).contains(
                    slot,
                ) by {
                    if q != key {
                        assert(self.queues[key].contains(slot));
                        assert(!self.queues[q].contains(slot));
                    }
                }
            }
            assert(m2.fits()) by {
                assert forall|i: int| 0 <= i < TASK_SLOT_COUNT implies {
                    let t = #[trigger] m2.tasks[i];
                    &&& t.priority < 32
                    &&& t.base_priority < 32
                    &&& t.waiting_sem <= 32
                    &&& t.waiting_mutex <= 32
                    &&& t.granted_sem <= 32
                    &&& t.granted_mutex <= 32
                } by {
                    assert(self.tasks[i].priority < 32);
                }
            }
            m2.lemma_pushed_distinct(slot);
            let new_key = m2.ready_key(slot);
            links::lemma_appended(m2.queues[new_key], slot);
            links::lemma_without(self.queues[key], slot);
            assert(m == m2.pushed(slot));
            assert forall|x: usize| x < TASK_SLOT_COUNT implies (#[trigger] m.ready_queued(x)
                <==> self.ready_queued(x)) by {
                if x != slot {
                    assert(m.task(x) == self.task(x));
                    let k = self.ready_key(x);
                    assert(self.tasks[x as int].priority < 32);
                    assert(m.queues[k].contains(x) <==> self.queues[k].contains(x));
                }
            }
        } else if t.state != State::Ready && t.waiting_sem != 0 {
            let queue = 32 + t.waiting_sem - 1;
            let m1 = self.dequeued(queue, slot);
            self.lemma_dequeued_distinct(queue, slot);
            let m2 = m1.with_priority_field(slot, priority);
            assert(m2.loose(slot)) by {
                self.lemma_placed_removed(slot);
                assert(m1.loose(slot));
            }
            m2.lemma_enqueued_distinct(queue, slot);
            m2.lemma_enqueued_members(queue, slot);
            assert forall|q: int, x: usize| 32 <= q < 96 implies (#[trigger] m.queues[q].contains(x)
                <==> self.queues[q].contains(x)) by {
                if q == queue {
                    assert(m2.enqueued(queue, slot).queues[queue].contains(x) <==> (x == slot
                        || m2.queues[queue].contains(x)));
                    if x != slot {
                        assert(m1.queues[queue].contains(x) <==> self.queues[queue].contains(x)) by {
                            links::lemma_without(self.queues[queue], slot);
                        }
                    }
                }
            }
            assert forall|x: usize| x < TASK_SLOT_COUNT implies (#[trigger] m.ready_queued(x)
                <==> self.ready_queued(x)) by {
                assert(self.tasks[x as int].priority < 32);
                assert(m.tasks[x as int].priority < 32);
                if x == slot {
                    if self.queues[key].contains(slot) {
                        assert(self.home(slot) == key);
                    }
                    let k2 = m.ready_key(slot);
                    if m.queues[k2].contains(slot) {
                        assert(m.home(slot) == k2);
                    }
                } else {
                    assert(m.task(x) == self.task(x));
                }
            }
            if self.all_by_priority() {
                assert forall|q: int| 32 <= q < 64 implies #[trigger] m.by_priority(q) by {
                    assert(self.by_priority(q));
                    let s = self.queues[q];
                    assert forall|x: usize| x != slot && s.contains(x) implies
                        #[trigger] m.tasks[x as int].priority == self.tasks[x as int].priority by {
                        assert(x < TASK_SLOT_COUNT);
                    }
                    lemma_without_ordered(self.tasks, m.tasks, s, slot);
                    if q == queue {
                        assert(m2.tasks == m.tasks);
                        lemma_enqueued_ordered(m2.tasks, m2.queues[queue], slot);
                    } else {
                        if s.contains(slot) {
                            assert(self.home(slot) == q);
                        }
                        links::lemma_without(s, slot);
                    }
                }
            }
        } else {
            assert(m.queues == self.queues);
            assert(m.distinct());
            assert forall|x: usize| x < TASK_SLOT_COUNT implies (#[trigger] m.ready_queued(x)
                <==> self.ready_queued(x)) by {
                assert(self.tasks[x as int].priority < 32);
                assert(m.tasks[x as int].priority < 32);
                if x == slot {
                    if self.queues[key].contains(slot) {
                        assert(self.home(slot) == key);
                        assert(self.task(slot).state == State::Ready);
                    }
                    let k2 = m.ready_key(slot);
                    if m.queues[k2].contains(slot) {
                        assert(self.queues[k2].contains(slot));
                        assert(self.home(slot) == k2);
                    }
                } else {
                    assert(m.task(x) == self.task(x));
                }
            }
        }
        if self.all_by_priority() && (t.state == State::Ready || t.waiting_sem == 0) {
            assert forall|q: int| 32 <= q < 64 implies #[trigger] m.by_priority(q) by {
                assert(self.by_priority(q));
                let s = self.queues[q];
                assert(m.queues[q] == s);
                if s.contains(slot) {
                    assert(self.home(slot) == q);
                }
                assert forall|i: int| #![trigger s[i]] 0 <= i < s.len() implies m.tasks[s[i] as int]
                    == self.tasks[s[i] as int] by {
                    assert(s.contains(s[i]));
                }
            }
        }
    }

    /// Requeueing a mutex waiter keeps the structure and restores the order.
    pub(crate) proof fn lemma_requeued_kin(self, slot: usize)
        requires
            self.sound(),
            slot < TASK_SLOT_COUNT,
            self.task(slot).waiting_mutex != 0,
            self.queues[64 + self.task(slot).waiting_mutex - 1].contains(slot),
        ensures
            ({
                let q = 64 + self.task(slot).waiting_mutex - 1;
                let m = self.dequeued(q, slot).enqueued(q, slot);
                &&& m.sound()
                &&& self.kin(m)
                &&& m.tasks == self.tasks
                &&& forall|p: int| 0 <= p < 96 && p != q ==> #[trigger] m.queues[p] == self.queues[p]
                &&& ordered(self.tasks, links::without(self.queues[q], slot)) ==> m.by_priority(q)
            }),
    {
        let q = 64 + self.task(slot).waiting_mutex - 1;
        assert(self.tasks[slot as int].waiting_mutex <= 32);
        assert(self.home(slot) == q);
        let m1 = self.dequeued(q, slot);
        let m = m1.enqueued(q, slot);
        self.lemma_requeued_placed(slot);
        self.lemma_placed_removed(slot);
        self.lemma_dequeued_distinct(q, slot);
        m1.lemma_enqueued_distinct(q, slot);
        m1.lemma_enqueued_members(q, slot);
        assert forall|p: int, x: usize| 32 <= p < 96 implies (#[trigger] m.queues[p].contains(x)
            <==> self.queues[p].contains(x)) by {
            if p == q {
                assert(m.queues[q].contains(x) <==> (x == slot || m1.queues[q].contains(x)));
                if x != slot {
                    links::lemma_without(self.queues[q], slot);
                }
            }
        }
        assert forall|x: usize| x < TASK_SLOT_COUNT implies (#[trigger] m.ready_queued(x)
            <==> self.ready_queued(x)) by {
            assert(self.tasks[x as int].priority < 32);
        }
        if ordered(self.tasks, links::without(self.queues[q], slot)) {
            lemma_enqueued_ordered(m1.tasks, m1.queues[q], slot);
        }
    }

    /// Changing donation counters keeps the structure.
    pub(crate) proof fn lemma_with_donations_kin(self, slot: usize, level: u8, amount: u8)
        requires
            self.sound(),
            slot < TASK_SLOT_COUNT,
            level < 32,
        ensures
            self.with_donations(slot, level, amount).sound(),
            self.kin(self.with_donations(slot, level, amount)),
            self.with_donations(slot, level, amount).queues == self.queues,
            forall|x: usize|
                x < TASK_SLOT_COUNT ==> (#[trigger] self.with_donations(slot, level, amount).task(
                    x,
                )).priority == self.task(x).priority,
    {
        let m = self.with_donations(slot, level, amount);
        inheritance::lemma_donations_keep_placement(self, slot, level, amount);
        assert(m.fits()) by {
            assert forall|i: int| 0 <= i < TASK_SLOT_COUNT implies {
                let t = #[trigger] m.tasks[i];
                &&& t.priority < 32
                &&& t.base_priority < 32
                &&& t.waiting_sem <= 32
                &&& t.waiting_mutex <= 32
                &&& t.granted_sem <= 32
                &&& t.granted_mutex <= 32
            } by {
                assert(self.tasks[i].priority < 32);
            }
        }
        assert forall|x: usize| x < TASK_SLOT_COUNT implies (#[trigger] m.ready_queued(x)
            <==> self.ready_queued(x)) by {}
    }

    pub(crate) proof fn lemma_kin_trans(self, b: SchedModel, c: SchedModel)
        requires
            self.kin(b),
            b.kin(c),
        ensures
            self.kin(c),
    {
        assert forall|i: int| 0 <= i < TASK_SLOT_COUNT implies #[trigger] c.tasks[i] == (Tcb {
            priority: c.tasks[i].priority,
            inherited_waiters: c.tasks[i].inherited_waiters,
            ..self.tasks[i]
        }) by {
            assert(b.tasks[i] == (Tcb {
                priority: b.tasks[i].priority,
                inherited_waiters: b.tasks[i].inherited_waiters,
                ..self.tasks[i]
            }));
        }
        assert forall|q: int, slot: usize| 32 <= q < 96 implies (#[trigger] c.queues[q].contains(
            slot,
        ) <==> self.queues[q].contains(slot)) by {
            assert(b.queues[q].contains(slot) <==> self.queues[q].contains(slot));
        }
        assert forall|slot: usize| slot < TASK_SLOT_COUNT implies (#[trigger] c.ready_queued(slot)
            <==> self.ready_queued(slot)) by {
            assert(b.ready_queued(slot) <==> self.ready_queued(slot));
        }
    }

    /// Chains look the same in kindred states.
    pub(crate) proof fn lemma_kin_chain(self, other: SchedModel, slot: usize, fuel: nat)
        requires
            self.kin(other),
            slot < TASK_SLOT_COUNT,
            self.chain_live(slot, fuel),
        ensures
            other.chain_live(slot, fuel),
        decreases fuel,
    {
        assert(other.tasks[slot as int].waiting_mutex == self.tasks[slot as int].waiting_mutex);
        assert(self.tasks[slot as int].waiting_mutex <= 32);
        let w = self.task(slot).waiting_mutex;
        if w != 0 {
            let q = 64 + w - 1;
            assert(other.queues[q].contains(slot) <==> self.queues[q].contains(slot));
            if self.mutex_owner[w - 1] != NIL {
                assert(self.mutex_owner[w - 1] < TASK_SLOT_COUNT);
                self.lemma_kin_chain(other, self.mutex_owner[w - 1], (fuel - 1) as nat);
            }
        }
    }

    /// A chain that ends does not come back to its start.
    pub(crate) proof fn lemma_no_self_block(self, slot: usize, fuel: nat)
        requires
            self.chain_live(slot, fuel),
        ensures
            self.blocker(slot) != Some(slot),
        decreases fuel,
    {
        if self.blocker(slot) == Some(slot) {
            self.lemma_no_self_block(slot, (fuel - 1) as nat);
        }
    }

    /// What a single task contributes to its owner's donations.
    pub(crate) proof fn lemma_donors_change(
        self,
        other: SchedModel,
        slot: usize,
        owner: usize,
        level: u8,
    )
        requires
            slot < TASK_SLOT_COUNT,
            forall|x: usize|
                x < TASK_SLOT_COUNT && x != slot ==> #[trigger] self.donates(x, owner, level)
                    == other.donates(x, owner, level),
        ensures
            other.donors(owner, level) + (if self.donates(slot, owner, level) {
                1int
            } else {
                0int
            }) == self.donors(owner, level) + (if other.donates(slot, owner, level) {
                1int
            } else {
                0int
            }),
    {
        let f = |x: usize| self.donates(x, owner, level);
        let g = |x: usize| other.donates(x, owner, level);
        assert forall|x: usize| x < TASK_SLOT_COUNT && x != slot implies #[trigger] f(x) == g(x) by {
            assert(self.donates(x, owner, level) == other.donates(x, owner, level));
        }
        lemma_count_change(f, g, slot, TASK_SLOT_COUNT as nat);
    }

    /// In a kindred state the donations of tasks of unchanged priority are the same.
    pub(crate) proof fn lemma_kin_donates(self, other: SchedModel, x: usize, owner: usize, level: u8)
        requires
            self.kin(other),
            x < TASK_SLOT_COUNT,
            self.task(x).priority == other.task(x).priority,
        ensures
            self.donates(x, owner, level) == other.donates(x, owner, level),
    {
        assert(other.tasks[x as int].waiting_mutex == self.tasks[x as int].waiting_mutex);
        assert(self.tasks[x as int].waiting_mutex <= 32);
        let w = self.task(x).waiting_mutex;
        if w != 0 {
            assert(other.queues[64 + w - 1].contains(x) <==> self.queues[64 + w - 1].contains(x));
        }
    }

    /// A donor count never exceeds the number of slots.
    pub(crate) proof fn lemma_donors_bound(self, owner: usize, level: u8)
        ensures
            self.donors(owner, level) <= TASK_SLOT_COUNT,
            forall|x: usize|
                x < TASK_SLOT_COUNT && #[trigger] self.donates(x, owner, level) ==> self.donors(
                    owner,
                    level,
                ) > 0,
    {
        let f = |x: usize| self.donates(x, owner, level);
        lemma_count_bounds(f, TASK_SLOT_COUNT as nat);
        assert forall|x: usize|
            x < TASK_SLOT_COUNT && #[trigger] self.donates(x, owner, level) implies self.donors(
            owner,
            level,
        ) > 0 by {
            assert(f(x));
        }
    }

    /// The state after `slot` takes its new priority and has been queued again.
    pub open spec fn reprioritised(self, slot: usize, priority: u8) -> SchedModel {
        let m = self.with_priority(slot, priority);
        let w = self.task(slot).waiting_mutex;
        if w == 0 {
            m
        } else {
            m.dequeued(64 + w - 1, slot).enqueued(64 + w - 1, slot)
        }
    }

    pub(crate) proof fn lemma_reprioritised(self, slot: usize, priority: u8)
        requires
            self.sound(),
            slot < TASK_SLOT_COUNT,
            priority < 32,
            self.task(slot).waiting_sem != 0 ==> self.queues[32 + self.task(slot).waiting_sem
                - 1].contains(slot) && self.task(slot).state != State::Ready,
            self.task(slot).waiting_mutex != 0 ==> self.queues[64 + self.task(slot).waiting_mutex
                - 1].contains(slot),
        ensures
            self.reprioritised(slot, priority).sound(),
            self.kin(self.reprioritised(slot, priority)),
            self.reprioritised(slot, priority).tasks == self.tasks.update(
                slot as int,
                Tcb { priority, ..self.task(slot) },
            ),
            self.all_by_priority() ==> self.reprioritised(slot, priority).all_by_priority(),
    {
        let w = self.task(slot).waiting_mutex;
        assert(self.tasks[slot as int].waiting_mutex <= 32);
        self.lemma_with_priority_kin(slot, priority);
        self.lemma_with_priority_frame(slot, priority);
        let m = self.with_priority(slot, priority);
        let n = self.reprioritised(slot, priority);
        assert(m.task(slot) == (Tcb { priority, ..self.task(slot) }));
        if w != 0 {
            let q = 64 + w - 1;
            assert(m.queues[q] == self.queues[q]);
            m.lemma_requeued_kin(slot);
            self.lemma_kin_trans(m, n);
        }
        if self.all_by_priority() {
            assert forall|q: int| 32 <= q < 96 implies #[trigger] n.by_priority(q) by {
                assert(self.by_priority(q));
                let s = self.queues[q];
                if q < 64 {
                    assert(m.by_priority(q));
                    if w != 0 {
                        assert(n.queues[q] == m.queues[q]);
                    }
                } else {
                    assert(m.queues[q] == s);
                    assert forall|x: usize| x != slot && s.contains(x) implies
                        #[trigger] m.tasks[x as int].priority == self.tasks[x as int].priority by {
                        assert(x < TASK_SLOT_COUNT);
                    }
                    lemma_without_ordered(self.tasks, m.tasks, s, slot);
                    if w != 0 && q == 64 + w - 1 {
                    } else {
                        if s.contains(slot) {
                            assert(self.home(slot) == q);
                        }
                        links::lemma_without(s, slot);
                        if w != 0 {
                            assert(n.queues[q] == m.queues[q]);
                        }
                    }
                }
            }
        }
    }

    /// Refreshing a task finds every donation it needs, keeps all counters exact
    /// and all queues in order, and leaves every task settled.
    #[verifier::spinoff_prover]
    #[verifier::rlimit(50)]
    pub(crate) proof fn lemma_refreshed(self, slot: usize, fuel: nat)
        requires
            self.sound(),
            self.exact(),
            self.sems_live(),
            slot < TASK_SLOT_COUNT,
            self.chain_live(slot, fuel),
        ensures
            self.refreshable(slot, fuel),
            self.refreshed(slot, fuel).sound(),
            self.refreshed(slot, fuel).exact(),
            self.kin(self.refreshed(slot, fuel)),
            self.all_by_priority() ==> self.refreshed(slot, fuel).all_by_priority(),
            (forall|x: usize| x < TASK_SLOT_COUNT && x != slot ==> #[trigger] self.settled(x))
                ==> forall|x: usize|
                x < TASK_SLOT_COUNT ==> #[trigger] self.refreshed(slot, fuel).settled(x),
        decreases fuel,
    {
        let t = self.task(slot);
        let new = t.effective();
        let n = self.refreshed(slot, fuel);
        assert(self.tasks[slot as int].base_priority < 32);
        inheritance::lemma_effective_bound(t);
        if t.priority == new {
            assert forall|x: usize| x < TASK_SLOT_COUNT implies (#[trigger] n.ready_queued(x)
                <==> self.ready_queued(x)) by {}
        } else {
            let m = self.reprioritised(slot, new);
            self.lemma_reprioritised(slot, new);
            inheritance::lemma_best_donation_same(m.task(slot), t, 0);
            assert(m.settled(slot));
            assert forall|x: usize| x < TASK_SLOT_COUNT && x != slot implies #[trigger] m.task(x)
                == self.task(x) by {}
            let w = t.waiting_mutex;
            let blocked = w != 0 && self.mutex_owner[w - 1] != NIL;
            if !blocked {
                assert(n == m);
                assert forall|owner: usize, level: u8|
                    owner < TASK_SLOT_COUNT && level < 32 implies #[trigger] m.donations(
                    owner,
                    level,
                ) == m.donors(owner, level) by {
                    assert(self.donations(owner, level) == self.donors(owner, level));
                    assert forall|x: usize| x < TASK_SLOT_COUNT && x != slot implies
                        #[trigger] self.donates(x, owner, level) == m.donates(x, owner, level) by {
                        assert(m.task(x) == self.task(x));
                        self.lemma_kin_donates(m, x, owner, level);
                    }
                    self.lemma_donors_change(m, slot, owner, level);
                    assert(!self.donates(slot, owner, level));
                    assert(m.tasks[slot as int].waiting_mutex == w);
                    assert(!m.donates(slot, owner, level));
                    if owner != slot {
                        assert(m.task(owner) == self.task(owner));
                    }
                }
                assert forall|x: usize|
                    x < TASK_SLOT_COUNT && x != slot && self.settled(x) implies m.settled(x) by {
                    assert(m.task(x) == self.task(x));
                }
            } else {
                let owner = self.mutex_owner[w - 1];
                assert(owner < TASK_SLOT_COUNT);
                self.lemma_no_self_block(slot, fuel);
                assert(owner != slot);
                assert(self.donates(slot, owner, t.priority));
                self.lemma_donors_bound(owner, t.priority);
                self.lemma_donors_bound(owner, new);
                assert(self.donations(owner, t.priority) == self.donors(owner, t.priority));
                assert(self.donations(owner, new) == self.donors(owner, new));
                assert(m.task(owner) == self.task(owner));
                let m1 = m.with_donations(
                    owner,
                    t.priority,
                    (m.donations(owner, t.priority) - 1) as u8,
                );
                m.lemma_with_donations_kin(
                    owner,
                    t.priority,
                    (m.donations(owner, t.priority) - 1) as u8,
                );
                let m2 = m.redonated(owner, t.priority, new);
                m1.lemma_with_donations_kin(owner, new, (m1.donations(owner, new) + 1) as u8);
                m.lemma_kin_trans(m1, m2);
                self.lemma_kin_trans(m, m2);
                assert(m2.queues == m.queues);
                assert forall|x: usize| x < TASK_SLOT_COUNT implies (#[trigger] m2.task(
                    x,
                )).priority == m.task(x).priority by {
                    assert(m1.task(x).priority == m.task(x).priority);
                }
                // The counters of the owner follow the donor's move.
                assert forall|o: usize, level: u8|
                    o < TASK_SLOT_COUNT && level < 32 implies #[trigger] m2.donations(o, level)
                    == m2.donors(o, level) by {
                    assert(self.donations(o, level) == self.donors(o, level));
                    assert forall|x: usize| x < TASK_SLOT_COUNT && x != slot implies
                        #[trigger] self.donates(x, o, level) == m2.donates(x, o, level) by {
                        assert(m.task(x) == self.task(x));
                        assert(m2.task(x).priority == m.task(x).priority);
                        self.lemma_kin_donates(m2, x, o, level);
                    }
                    self.lemma_donors_change(m2, slot, o, level);
                    assert(m2.tasks[slot as int].waiting_mutex == w);
                    assert(m2.queues[64 + w - 1].contains(slot)
                        <==> self.queues[64 + w - 1].contains(slot));
                    assert(m2.task(slot).priority == new);
                    assert(self.donates(slot, o, level) == (o == owner && level == t.priority));
                    assert(m2.donates(slot, o, level) == (o == owner && level == new));
                    if o != owner {
                        assert(m2.task(o) == m.task(o));
                        if o != slot {
                            assert(m.task(o) == self.task(o));
                        }
                    }
                }
                self.lemma_kin_chain(m2, owner, (fuel - 1) as nat);
                self.lemma_kin_sems(m2);
                m2.lemma_refreshed(owner, (fuel - 1) as nat);
                self.lemma_kin_trans(m2, n);
                if self.all_by_priority() {
                    assert(m2.all_by_priority()) by {
                        assert forall|q: int| 32 <= q < 96 implies #[trigger] m2.by_priority(q) by {
                            assert(m.by_priority(q));
                            let s = m.queues[q];
                            assert forall|i: int|
                                #![trigger s[i]]
                                0 <= i < s.len() implies m2.tasks[s[i] as int].priority
                                == m.tasks[s[i] as int].priority by {
                                assert(s.contains(s[i]));
                                assert(m2.task(s[i]).priority == m.task(s[i]).priority);
                            }
                        }
                    }
                }
                assert forall|x: usize|
                    x < TASK_SLOT_COUNT && x != owner && (x == slot || self.settled(
                        x,
                    )) implies #[trigger] m2.settled(x) by {
                    assert(m2.task(x) == m.task(x));
                    if x != slot {
                        assert(m.task(x) == self.task(x));
                    }
                }
            }
        }
    }

    /// Every task that waits for a semaphore is queued on it and not ready.
    pub open spec fn sems_live(self) -> bool {
        forall|slot: usize|
            slot < TASK_SLOT_COUNT && (#[trigger] self.task(slot)).waiting_sem != 0 ==> {
                &&& self.queues[32 + self.task(slot).waiting_sem - 1].contains(slot)
                &&& self.task(slot).state != State::Ready
            }
    }

    pub(crate) proof fn lemma_kin_sems(self, other: SchedModel)
        requires
            self.kin(other),
            self.sems_live(),
        ensures
            other.sems_live(),
    {
        assert forall|slot: usize|
            slot < TASK_SLOT_COUNT && (#[trigger] other.task(slot)).waiting_sem != 0 implies {
            &&& other.queues[32 + other.task(slot).waiting_sem - 1].contains(slot)
            &&& other.task(slot).state != State::Ready
        } by {
            assert(other.tasks[slot as int].waiting_sem == self.tasks[slot as int].waiting_sem);
            assert(self.tasks[slot as int].waiting_sem <= 32);
            assert(self.task(slot).waiting_sem != 0);
            let q = 32 + self.task(slot).waiting_sem - 1;
            assert(other.queues[q].contains(slot) <==> self.queues[q].contains(slot));
        }
    }
}

} // verus!
