//! Recursive mutexes with priority-ordered waiters and priority inheritance.
use vstd::prelude::*;
use crate::config::{IDLE_SLOT, NIL, TASK_SLOT_COUNT};
use crate::donation;
use crate::inheritance;
use crate::links;
use crate::model::SchedModel;
use crate::scheduler::Sched;
use crate::task::{State, Tcb};

verus! {

impl SchedModel {
    // ---- Releasing ---------------------------------------------------------
    /// `owner` loses the donations of the first `k` members of `s`, one by one.
    pub open spec fn shed(self, owner: usize, s: Seq<usize>, k: nat) -> SchedModel
        decreases k,
    {
        if k == 0 {
            self
        } else {
            let m = self.shed(owner, s, (k - 1) as nat);
            m.inheritance_removed(owner, m.task(s[k - 1]).priority)
        }
    }

    /// `owner` receives the donations of the first `k` members of `s`, one by one.
    pub open spec fn gathered(self, owner: usize, s: Seq<usize>, k: nat) -> SchedModel
        decreases k,
    {
        if k == 0 {
            self
        } else {
            let m = self.gathered(owner, s, (k - 1) as nat);
            m.inheritance_added(owner, m.task(s[k - 1]).priority)
        }
    }

    /// The first waiter has left the queue and no waiter donates to `owner` any
    /// more.
    pub open spec fn mutex_disowned(self, mutex: int, owner: usize) -> SchedModel {
        let waiters = self.mutex_waiters(mutex);
        let next = waiters[0];
        let rest = waiters.drop_first();
        self.dequeued(64 + mutex, next).inheritance_removed(owner, self.task(next).priority).shed(
            owner,
            rest,
            rest.len(),
        )
    }

    /// `next` becomes the owner, and ready.
    pub open spec fn mutex_handed(self, mutex: int, next: usize, now: u64) -> SchedModel {
        let t = self.task(next);
        self.with_mutex(mutex, next, 1).with_task(
            next,
            Tcb {
                granted_mutex: t.waiting_mutex,
                waiting_mutex: 0,
                wake_at: 0,
                sem_granted: true,
                ..t
            },
        ).made_ready(next, now)
    }

    /// `owner` lets go of a mutex: the best waiter becomes the owner and inherits
    /// from those that still wait, or nobody owns it.
    pub open spec fn mutex_released(self, mutex: int, owner: usize, now: u64) -> SchedModel {
        let waiters = self.mutex_waiters(mutex);
        if waiters.len() == 0 {
            self.with_mutex(mutex, NIL, self.mutex_depth[mutex])
        } else {
            let next = waiters[0];
            let rest = waiters.drop_first();
            self.mutex_disowned(mutex, owner).mutex_handed(mutex, next, now).gathered(
                next,
                rest,
                rest.len(),
            )
        }
    }

    // ---- Counting with some donors left out --------------------------------
    /// `slot` donates, leaving out the members of `gone` for `owner`.
    pub open spec fn donates_but(
        self,
        slot: usize,
        o: usize,
        level: u8,
        owner: usize,
        gone: Seq<usize>,
    ) -> bool {
        self.donates(slot, o, level) && !(o == owner && gone.contains(slot))
    }

    pub open spec fn donors_but(
        self,
        o: usize,
        level: u8,
        owner: usize,
        gone: Seq<usize>,
    ) -> nat {
        donation::count(
            |slot: usize| self.donates_but(slot, o, level, owner, gone),
            TASK_SLOT_COUNT as nat,
        )
    }

    /// The counters are exact but for the donations of `gone` to `owner`.
    pub open spec fn exact_but(self, owner: usize, gone: Seq<usize>) -> bool {
        forall|o: usize, level: u8|
            o < TASK_SLOT_COUNT && level < 32 ==> #[trigger] self.donations(o, level)
                == self.donors_but(o, level, owner, gone)
    }

    proof fn lemma_but_none(self, owner: usize, gone: Seq<usize>)
        requires
            gone.len() == 0,
        ensures
            self.exact() <==> self.exact_but(owner, gone),
    {
        assert forall|o: usize, level: u8| #[trigger]
            self.donors(o, level) == self.donors_but(o, level, owner, gone) by {
            let f = |slot: usize| self.donates(slot, o, level);
            let g = |slot: usize| self.donates_but(slot, o, level, owner, gone);
            donation::lemma_count_change(f, g, NIL, TASK_SLOT_COUNT as nat);
        }
        if self.exact() {
            assert forall|o: usize, level: u8|
                o < TASK_SLOT_COUNT && level < 32 implies #[trigger] self.donations(o, level)
                == self.donors_but(o, level, owner, gone) by {
                assert(self.donors(o, level) == self.donors_but(o, level, owner, gone));
            }
        }
        if self.exact_but(owner, gone) {
            assert forall|o: usize, level: u8|
                o < TASK_SLOT_COUNT && level < 32 implies #[trigger] self.donations(o, level)
                == self.donors(o, level) by {
                assert(self.donors(o, level) == self.donors_but(o, level, owner, gone));
            }
        }
    }

    proof fn lemma_but_change(
        self,
        other: SchedModel,
        slot: usize,
        o: usize,
        level: u8,
        owner: usize,
        gone: Seq<usize>,
        owner2: usize,
        gone2: Seq<usize>,
    )
        requires
            slot < TASK_SLOT_COUNT,
            forall|x: usize|
                x < TASK_SLOT_COUNT && x != slot ==> #[trigger] self.donates_but(
                    x,
                    o,
                    level,
                    owner,
                    gone,
                ) == other.donates_but(x, o, level, owner2, gone2),
        ensures
            other.donors_but(o, level, owner2, gone2) + (if self.donates_but(
                slot,
                o,
                level,
                owner,
                gone,
            ) {
                1int
            } else {
                0int
            }) == self.donors_but(o, level, owner, gone) + (if other.donates_but(
                slot,
                o,
                level,
                owner2,
                gone2,
            ) {
                1int
            } else {
                0int
            }),
    {
        let f = |x: usize| self.donates_but(x, o, level, owner, gone);
        let g = |x: usize| other.donates_but(x, o, level, owner2, gone2);
        assert forall|x: usize| x < TASK_SLOT_COUNT && x != slot implies #[trigger] f(x) == g(x) by {
            assert(self.donates_but(x, o, level, owner, gone) == other.donates_but(
                x,
                o,
                level,
                owner2,
                gone2,
            ));
        }
        donation::lemma_count_change(f, g, slot, TASK_SLOT_COUNT as nat);
    }

    proof fn lemma_but_bound(self, o: usize, level: u8, owner: usize, gone: Seq<usize>)
        ensures
            self.donors_but(o, level, owner, gone) <= TASK_SLOT_COUNT,
            forall|x: usize|
                x < TASK_SLOT_COUNT && #[trigger] self.donates_but(x, o, level, owner, gone)
                    ==> self.donors_but(o, level, owner, gone) > 0,
    {
        let f = |x: usize| self.donates_but(x, o, level, owner, gone);
        donation::lemma_count_bounds(f, TASK_SLOT_COUNT as nat);
        assert forall|x: usize|
            x < TASK_SLOT_COUNT && #[trigger] self.donates_but(
                x,
                o,
                level,
                owner,
                gone,
            ) implies self.donors_but(o, level, owner, gone) > 0 by {
            assert(f(x));
        }
    }

    // ---- Refreshing a task that waits for no mutex --------------------------
    pub(crate) proof fn lemma_refreshed_terminal(self, slot: usize, fuel: nat)
        requires
            self.sound(),
            self.sems_live(),
            slot < TASK_SLOT_COUNT,
            fuel > 0,
            self.task(slot).waiting_mutex == 0,
        ensures
            self.refreshable(slot, fuel),
            self.refreshed(slot, fuel).sound(),
            self.refreshed(slot, fuel).sems_live(),
            self.kin(self.refreshed(slot, fuel)),
            forall|q: int| 64 <= q < 96 ==> #[trigger] self.refreshed(slot, fuel).queues[q]
                == self.queues[q],
            forall|x: usize|
                x < TASK_SLOT_COUNT && x != slot ==> #[trigger] self.refreshed(slot, fuel).task(x)
                    == self.task(x),
            forall|o: usize, level: u8|
                o < TASK_SLOT_COUNT ==> #[trigger] self.refreshed(slot, fuel).donations(o, level)
                    == self.donations(o, level),
            self.refreshed(slot, fuel).settled(slot),
            self.all_by_priority() ==> self.refreshed(slot, fuel).all_by_priority(),
    {
        let t = self.task(slot);
        let new = t.effective();
        let n = self.refreshed(slot, fuel);
        assert(self.tasks[slot as int].base_priority < 32);
        inheritance::lemma_effective_bound(t);
        if t.priority == new {
            assert forall|x: usize| x < TASK_SLOT_COUNT implies (#[trigger] n.ready_queued(x)
                <==> self.ready_queued(x)) by {}
        } else {
            assert(n == self.with_priority(slot, new));
            self.lemma_with_priority_kin(slot, new);
            self.lemma_with_priority_frame(slot, new);
            self.lemma_kin_sems(n);
            inheritance::lemma_best_donation_same(n.task(slot), t, 0);
            if self.all_by_priority() {
                assert forall|q: int| 32 <= q < 96 implies #[trigger] n.by_priority(q) by {
                    assert(self.by_priority(q));
                    if q >= 64 {
                        let s = self.queues[q];
                        assert(n.queues[q] == s);
                        if s.contains(slot) {
                            assert(self.home(slot) == q);
                        }
                        assert forall|i: int|
                            #![trigger s[i]]
                            0 <= i < s.len() implies n.tasks[s[i] as int] == self.tasks[s[i] as int] by {
                            assert(s.contains(s[i]));
                        }
                    }
                }
            }
        }
    }

    /// The donation of one waiter is taken away from an owner that waits for no
    /// mutex.
    pub(crate) proof fn lemma_shed_step(self, owner: usize, w: usize, gone: Seq<usize>)
        requires
            self.sound(),
            self.sems_live(),
            self.exact_but(owner, gone),
            owner < TASK_SLOT_COUNT,
            w < TASK_SLOT_COUNT,
            self.task(owner).waiting_mutex == 0,
            self.donates(w, owner, self.task(w).priority),
            !gone.contains(w),
        ensures
            ({
                let p = self.task(w).priority;
                let n = self.inheritance_removed(owner, p);
                &&& w != owner
                &&& self.donations(owner, p) > 0
                &&& self.undonated(owner, p).refreshable(owner, TASK_SLOT_COUNT as nat)
                &&& n.sound()
                &&& n.sems_live()
                &&& self.kin(n)
                &&& n.exact_but(owner, gone.push(w))
                &&& forall|q: int| 64 <= q < 96 ==> #[trigger] n.queues[q] == self.queues[q]
                &&& forall|x: usize|
                    x < TASK_SLOT_COUNT && x != owner ==> #[trigger] n.task(x) == self.task(x)
                &&& self.all_by_priority() ==> n.all_by_priority()
                &&& self.all_settled() ==> n.all_settled()
                &&& self.idle_unqueued() ==> n.idle_unqueued()
            }),
    {
        let p = self.task(w).priority;
        assert(self.tasks[w as int].priority < 32);
        assert(self.donates_but(w, owner, p, owner, gone));
        self.lemma_but_bound(owner, p, owner, gone);
        assert(self.donations(owner, p) == self.donors_but(owner, p, owner, gone));
        let amount = (self.donations(owner, p) - 1) as u8;
        let m = self.undonated(owner, p);
        self.lemma_with_donations_kin(owner, p, amount);
        self.lemma_kin_sems(m);
        m.lemma_refreshed_terminal(owner, TASK_SLOT_COUNT as nat);
        let n = self.inheritance_removed(owner, p);
        self.lemma_kin_trans(m, n);
        assert forall|x: usize| x < TASK_SLOT_COUNT && x != owner implies #[trigger] n.task(x)
            == self.task(x) by {
            assert(n.task(x) == m.task(x));
        }
        let gone2 = gone.push(w);
        assert forall|o: usize, level: u8|
            o < TASK_SLOT_COUNT && level < 32 implies #[trigger] n.donations(o, level)
            == n.donors_but(o, level, owner, gone2) by {
            assert(n.donations(o, level) == m.donations(o, level));
            assert(self.donations(o, level) == self.donors_but(o, level, owner, gone));
            assert forall|x: usize| x < TASK_SLOT_COUNT && x != w implies
                #[trigger] self.donates_but(x, o, level, owner, gone) == n.donates_but(
                x,
                o,
                level,
                owner,
                gone2,
            ) by {
                if x == owner {
                    assert(self.task(owner).waiting_mutex == 0);
                    assert(n.tasks[owner as int].waiting_mutex == 0);
                } else {
                    self.lemma_kin_donates(n, x, o, level);
                }
                assert(gone2.contains(x) <==> gone.contains(x)) by {
                    if gone.contains(x) {
                        let i = gone.index_of(x);
                        assert(gone2[i] == x);
                    }
                    if gone2.contains(x) {
                        let i = gone2.index_of(x);
                        assert(i < gone.len());
                        assert(gone[i] == x);
                    }
                }
            }
            self.lemma_but_change(n, w, o, level, owner, gone, owner, gone2);
            assert(n.task(w) == self.task(w));
            self.lemma_kin_donates(n, w, o, level);
            assert(gone2[gone.len() as int] == w);
            assert(gone2.contains(w));
            assert(self.donates(w, o, level) == (o == owner && level == p));
            assert(n.donates_but(w, o, level, owner, gone2) == false);
            assert(self.donates_but(w, o, level, owner, gone) == (o == owner && level == p));
        }
        if self.all_by_priority() {
            self.lemma_tidy_frame_priorities(m);
        }
        if self.all_settled() {
            assert forall|x: usize| x < TASK_SLOT_COUNT implies #[trigger] n.settled(x) by {
                if x != owner {
                    assert(self.settled(x));
                    assert(n.task(x) == self.task(x));
                }
            }
        }
        if self.idle_unqueued() {
            self.lemma_kin_idle(n);
        }
    }

    /// The order of wait queues depends on priorities alone.
    pub(crate) proof fn lemma_tidy_frame_priorities(self, other: SchedModel)
        requires
            self.distinct(),
            other.queues == self.queues,
            self.all_by_priority(),
            forall|x: usize|
                x < TASK_SLOT_COUNT ==> (#[trigger] other.task(x)).priority == self.task(x).priority,
        ensures
            other.all_by_priority(),
    {
        assert forall|q: int| 32 <= q < 96 implies #[trigger] other.by_priority(q) by {
            assert(self.by_priority(q));
            let s = self.queues[q];
            assert forall|i: int| #![trigger s[i]] 0 <= i < s.len() implies other.tasks[s[i] as int].priority
                == self.tasks[s[i] as int].priority by {
                assert(s.contains(s[i]));
                assert(other.task(s[i]).priority == self.task(s[i]).priority);
            }
        }
    }

    /// The donation of one waiter is added to an owner that waits for no mutex.
    #[verifier::spinoff_prover]
    #[verifier::rlimit(50)]
    pub(crate) proof fn lemma_gather_step(self, owner: usize, w: usize, pending: Seq<usize>)
        requires
            self.sound(),
            self.sems_live(),
            self.exact_but(owner, pending),
            owner < TASK_SLOT_COUNT,
            w < TASK_SLOT_COUNT,
            self.task(owner).waiting_mutex == 0,
            self.donates(w, owner, self.task(w).priority),
            pending.len() > 0,
            pending[0] == w,
            pending.no_duplicates(),
        ensures
            ({
                let p = self.task(w).priority;
                let n = self.inheritance_added(owner, p);
                &&& w != owner
                &&& self.donations(owner, p) < u8::MAX
                &&& self.donated(owner, p).refreshable(owner, TASK_SLOT_COUNT as nat)
                &&& n.sound()
                &&& n.sems_live()
                &&& self.kin(n.with_diagnostics(self.diagnostics))
                &&& n.exact_but(owner, pending.drop_first())
                &&& forall|q: int| 64 <= q < 96 ==> #[trigger] n.queues[q] == self.queues[q]
                &&& forall|x: usize|
                    x < TASK_SLOT_COUNT && x != owner ==> #[trigger] n.task(x) == self.task(x)
                &&& n.tasks[owner as int].waiting_mutex == 0
                &&& n.mutex_owner == self.mutex_owner
                &&& self.all_by_priority() ==> n.all_by_priority()
                &&& self.all_settled() ==> n.all_settled()
                &&& self.idle_unqueued() ==> n.idle_unqueued()
            }),
    {
        let p = self.task(w).priority;
        assert(self.tasks[w as int].priority < 32);
        self.lemma_but_bound(owner, p, owner, pending);
        assert(self.donations(owner, p) == self.donors_but(owner, p, owner, pending));
        let amount = (self.donations(owner, p) + 1) as u8;
        let bumped = self.donated(owner, p).diagnostics;
        let base = self.with_diagnostics(bumped);
        assert(base.sound()) by {
            self.lemma_sound_frame(base);
        }
        assert(base.sems_live()) by {
            assert forall|y: usize|
                y < TASK_SLOT_COUNT && (#[trigger] base.task(y)).waiting_sem != 0 implies {
                &&& base.queues[32 + base.task(y).waiting_sem - 1].contains(y)
                &&& base.task(y).state != State::Ready
            } by {
                assert(self.task(y).waiting_sem != 0);
            }
        }
        let m = self.donated(owner, p);
        assert(m =~= base.with_donations(owner, p, amount));
        base.lemma_with_donations_kin(owner, p, amount);
        base.lemma_kin_sems(m);
        m.lemma_refreshed_terminal(owner, TASK_SLOT_COUNT as nat);
        let n = self.inheritance_added(owner, p);
        base.lemma_kin_trans(m, n);
        let back = n.with_diagnostics(self.diagnostics);
        assert(self.kin(back)) by {
            assert forall|i: int| 0 <= i < TASK_SLOT_COUNT implies #[trigger] back.tasks[i] == (Tcb {
                priority: back.tasks[i].priority,
                inherited_waiters: back.tasks[i].inherited_waiters,
                ..self.tasks[i]
            }) by {
                assert(n.tasks[i] == (Tcb {
                    priority: n.tasks[i].priority,
                    inherited_waiters: n.tasks[i].inherited_waiters,
                    ..base.tasks[i]
                }));
            }
            assert(back.fits());
            assert(self.fits());
            assert forall|q: int, slot: usize| 32 <= q < 96 implies (
            #[trigger] back.queues[q].contains(slot) <==> self.queues[q].contains(slot)) by {
                assert(n.queues[q].contains(slot) <==> base.queues[q].contains(slot));
            }
            assert forall|slot: usize| slot < TASK_SLOT_COUNT implies (
            #[trigger] back.ready_queued(slot) <==> self.ready_queued(slot)) by {
                assert(n.ready_queued(slot) <==> base.ready_queued(slot));
            }
        }
        assert forall|x: usize| x < TASK_SLOT_COUNT && x != owner implies #[trigger] n.task(x)
            == self.task(x) by {
            assert(n.task(x) == m.task(x));
        }
        let rest = pending.drop_first();
        links::lemma_drop_first(pending);
        assert forall|o: usize, level: u8|
            o < TASK_SLOT_COUNT && level < 32 implies #[trigger] n.donations(o, level)
            == n.donors_but(o, level, owner, rest) by {
            assert(n.donations(o, level) == m.donations(o, level));
            assert(self.donations(o, level) == self.donors_but(o, level, owner, pending));
            assert forall|x: usize| x < TASK_SLOT_COUNT && x != w implies
                #[trigger] self.donates_but(x, o, level, owner, pending) == n.donates_but(
                x,
                o,
                level,
                owner,
                rest,
            ) by {
                if x == owner {
                    assert(back.tasks[owner as int].waiting_mutex == 0);
                } else {
                    assert(n.task(x) == self.task(x));
                    assert(back.task(x) == self.task(x));
                    self.lemma_kin_donates(back, x, o, level);
                }
            }
            self.lemma_but_change(n, w, o, level, owner, pending, owner, rest);
            assert(n.task(w) == self.task(w));
            assert(back.task(w) == self.task(w));
            self.lemma_kin_donates(back, w, o, level);
            assert(pending.contains(w));
            assert(self.donates(w, o, level) == (o == owner && level == p));
            assert(n.donates(w, o, level) == self.donates(w, o, level));
            assert(n.donates_but(w, o, level, owner, rest) == (o == owner && level == p));
            assert(self.donates_but(w, o, level, owner, pending) == false);
        }
        if self.all_by_priority() {
            self.lemma_tidy_frame_priorities(m);
        }
        if self.all_settled() {
            assert forall|x: usize| x < TASK_SLOT_COUNT implies #[trigger] n.settled(x) by {
                if x != owner {
                    assert(self.settled(x));
                    assert(n.task(x) == self.task(x));
                }
            }
        }
        if self.idle_unqueued() {
            self.lemma_kin_idle(back);
        }
    }

    pub(crate) proof fn lemma_sound_frame(self, other: SchedModel)
        requires
            self.sound(),
            other.tasks == self.tasks,
            other.queues == self.queues,
            other.mutex_owner == self.mutex_owner,
            other.policy == self.policy,
            other.sem_counts.len() == 32,
            other.mutex_depth.len() == 32,
            other.slot_generations.len() == TASK_SLOT_COUNT,
            other.current < TASK_SLOT_COUNT,
        ensures
            other.sound(),
    {
        assert forall|q: int, x: usize|
            #![trigger other.queues[q].contains(x)]
            0 <= q < 96 && other.queues[q].contains(x) implies other.seated(q, x) by {
            assert(self.queues[q].contains(x));
        }
    }

    /// Becoming ready keeps the structure and leaves all wait queues as they are.
    pub(crate) proof fn lemma_made_ready_sound(self, slot: usize, now: u64)
        requires
            self.sound(),
            self.sems_live(),
            slot < TASK_SLOT_COUNT,
            self.loose(slot),
            self.task(slot).waiting_sem == 0,
            self.task(slot).waiting_mutex == 0,
        ensures
            self.made_ready(slot, now).sound(),
            self.made_ready(slot, now).sems_live(),
            forall|q: int| 32 <= q < 96 ==> #[trigger] self.made_ready(slot, now).queues[q]
                == self.queues[q],
    {
        let t = self.task(slot);
        let t2 = Tcb { state: State::Ready, metrics: t.metrics.made_ready(now), ..t };
        let m = self.with_task(slot, t2);
        let n = self.made_ready(slot, now);
        let key = self.ready_key(slot);
        assert(self.tasks[slot as int].priority < 32);
        self.lemma_fits_with_task(slot, t2);
        assert(m.loose(slot)) by {
            assert forall|q: int| 0 <= q < 96 implies !(#[trigger] m.queues[q]).contains(slot) by {
                assert(!self.queues[q].contains(slot));
            }
        }
        assert(m.distinct());
        assert(!self.queues[key].contains(slot));
        links::lemma_appended(self.queues[key], slot);
        if !self.is_idle(slot) {
            m.lemma_pushed_distinct(slot);
        }
        assert forall|q: int, x: usize|
            #![trigger n.queues[q].contains(x)]
            0 <= q < 96 && n.queues[q].contains(x) implies n.seated(q, x) by {
            if x == slot {
                assert(!self.queues[q].contains(slot));
            } else {
                assert(self.queues[q].contains(x));
                assert(n.task(x) == self.task(x));
            }
        }
        assert(n.waits_once()) by {
            assert forall|i: int| 0 <= i < TASK_SLOT_COUNT implies (
            #[trigger] n.tasks[i]).waiting_sem == 0 || n.tasks[i].waiting_mutex == 0 by {
                assert(self.tasks[i].waiting_sem == 0 || self.tasks[i].waiting_mutex == 0);
            }
        }
        assert forall|y: usize|
            y < TASK_SLOT_COUNT && (#[trigger] n.task(y)).waiting_sem != 0 implies {
            &&& n.queues[32 + n.task(y).waiting_sem - 1].contains(y)
            &&& n.task(y).state != State::Ready
        } by {
            assert(y != slot);
            assert(n.task(y) == self.task(y));
            assert(self.tasks[y as int].waiting_sem <= 32);
        }
    }

    // ---- Releasing a mutex that others wait for ------------------------------
    /// What holds while the old owner loses its donations.
    spec fn disowning(self, m: SchedModel, mutex: int, owner: usize, k: nat) -> bool {
        let waiters = self.mutex_waiters(mutex);
        let next = waiters[0];
        let rest = waiters.drop_first();
        let left = self.dequeued(64 + mutex, next);
        &&& m.sound()
        &&& m.sems_live()
        &&& m.exact_but(owner, rest.take(k as int))
        &&& left.kin(m)
        &&& m.task(owner).waiting_mutex == 0
        &&& forall|q: int| 64 <= q < 96 ==> #[trigger] m.queues[q] == left.queues[q]
        &&& forall|x: usize|
            x < TASK_SLOT_COUNT && x != owner ==> #[trigger] m.task(x) == self.task(x)
        &&& self.all_by_priority() ==> m.all_by_priority()
        &&& self.all_settled() ==> m.all_settled()
        &&& self.idle_unqueued() ==> m.idle_unqueued()
    }

    spec fn releasable(self, mutex: int, owner: usize) -> bool {
        &&& self.coherent()
        &&& 0 <= mutex < 32
        &&& owner < TASK_SLOT_COUNT
        &&& self.mutex_owner[mutex] == owner
        &&& self.task(owner).waiting_mutex == 0
        &&& self.mutex_waiters(mutex).len() > 0
    }

    proof fn lemma_waiter(self, mutex: int, i: int)
        requires
            self.coherent(),
            0 <= mutex < 32,
            0 <= i < self.mutex_waiters(mutex).len(),
        ensures
            ({
                let w = self.mutex_waiters(mutex)[i];
                &&& w < TASK_SLOT_COUNT
                &&& self.task(w).waiting_mutex == mutex + 1
                &&& self.task(w).waiting_sem == 0
                &&& self.task(w).state == State::Blocked
                &&& self.mutex_waiters(mutex).contains(w)
            }),
    {
        let s = self.queues[64 + mutex];
        let w = s[i];
        assert(s.contains(w));
        assert(self.home(w) == 64 + mutex);
        assert(self.tasks[w as int].waiting_sem <= 32);
        assert(self.tasks[w as int].waiting_sem == 0 || self.tasks[w as int].waiting_mutex == 0);
        assert(self.task(w).waiting_mutex == mutex + 1);
    }

    proof fn lemma_disowning_start(self, mutex: int, owner: usize)
        requires
            self.releasable(mutex, owner),
        ensures
            ({
                let next = self.mutex_waiters(mutex)[0];
                let left = self.dequeued(64 + mutex, next);
                let p = self.task(next).priority;
                &&& next != owner
                &&& left.sound()
                &&& left.loose(next)
                &&& left.donations(owner, p) > 0
                &&& left.undonated(owner, p).refreshable(owner, TASK_SLOT_COUNT as nat)
                &&& self.disowning(left.inheritance_removed(owner, p), mutex, owner, 0)
            }),
    {
        let next = self.mutex_waiters(mutex)[0];
        self.lemma_waiter(mutex, 0);
        let left = self.dequeued(64 + mutex, next);
        let p = self.task(next).priority;
        self.lemma_mutex_donation_left(next);
        let n = left.inheritance_removed(owner, p);
        assert(n == self.mutex_donation_left(next));
        let m = left.undonated(owner, p);
        assert(self.tasks[next as int].priority < 32);
        left.lemma_with_donations_kin(owner, p, (left.donations(owner, p) - 1) as u8);
        self.lemma_waits_sems();
        assert(left.sems_live()) by {
            assert forall|y: usize|
                y < TASK_SLOT_COUNT && (#[trigger] left.task(y)).waiting_sem != 0 implies {
                &&& left.queues[32 + left.task(y).waiting_sem - 1].contains(y)
                &&& left.task(y).state != State::Ready
            } by {
                assert(self.task(y).waiting_sem != 0);
                assert(self.tasks[y as int].waiting_sem <= 32);
            }
        }
        left.lemma_kin_sems(m);
        m.lemma_refreshed_terminal(owner, TASK_SLOT_COUNT as nat);
        let rest = self.mutex_waiters(mutex).drop_first();
        n.lemma_but_none(owner, rest.take(0));
        assert forall|x: usize| x < TASK_SLOT_COUNT && x != owner implies #[trigger] n.task(x)
            == self.task(x) by {
            assert(n.task(x) == m.task(x));
        }
        assert(n.tasks[owner as int].waiting_mutex == left.tasks[owner as int].waiting_mutex);
    }

    /// A waiter that is still queued donates to the owner.
    proof fn lemma_still_donates(self, m: SchedModel, mutex: int, owner: usize, k: nat)
        requires
            self.releasable(mutex, owner),
            self.disowning(m, mutex, owner, k),
            k < self.mutex_waiters(mutex).len() - 1,
        ensures
            ({
                let rest = self.mutex_waiters(mutex).drop_first();
                let w = rest[k as int];
                &&& w < TASK_SLOT_COUNT
                &&& w != owner
                &&& m.donates(w, owner, m.task(w).priority)
                &&& m.task(w) == self.task(w)
                &&& m.queues[64 + mutex] == rest
                &&& !rest.take(k as int).contains(w)
            }),
    {
        let waiters = self.mutex_waiters(mutex);
        let rest = waiters.drop_first();
        let w = rest[k as int];
        let left = self.dequeued(64 + mutex, waiters[0]);
        self.lemma_waiter(mutex, k as int + 1);
        assert(w == waiters[k as int + 1]);
        links::lemma_drop_first(waiters);
        assert(left.queues[64 + mutex] == rest);
        assert(m.queues[64 + mutex] == rest);
        assert(w != owner) by {
            assert(self.task(owner).waiting_mutex == 0);
        }
        assert(m.task(w) == self.task(w));
        assert(rest.contains(w));
        assert(!rest.take(k as int).contains(w)) by {
            let s = rest.take(k as int);
            if s.contains(w) {
                let i = s.index_of(w);
                assert(rest[i] == w);
            }
        }
    }

    proof fn lemma_disowning(self, mutex: int, owner: usize, k: nat)
        requires
            self.releasable(mutex, owner),
            k <= self.mutex_waiters(mutex).len() - 1,
        ensures
            ({
                let next = self.mutex_waiters(mutex)[0];
                let rest = self.mutex_waiters(mutex).drop_first();
                let start = self.dequeued(64 + mutex, next).inheritance_removed(
                    owner,
                    self.task(next).priority,
                );
                &&& self.disowning(start.shed(owner, rest, k), mutex, owner, k)
                &&& k < rest.len() ==> {
                    let m = start.shed(owner, rest, k);
                    let p = m.task(rest[k as int]).priority;
                    &&& m.donations(owner, p) > 0
                    &&& m.undonated(owner, p).refreshable(owner, TASK_SLOT_COUNT as nat)
                }
            }),
        decreases k,
    {
        let next = self.mutex_waiters(mutex)[0];
        let rest = self.mutex_waiters(mutex).drop_first();
        let left = self.dequeued(64 + mutex, next);
        let start = left.inheritance_removed(owner, self.task(next).priority);
        self.lemma_disowning_start(mutex, owner);
        let n = start.shed(owner, rest, k);
        if k > 0 {
            let j = (k - 1) as nat;
            self.lemma_disowning(mutex, owner, j);
            let m = start.shed(owner, rest, j);
            self.lemma_still_donates(m, mutex, owner, j);
            let w = rest[j as int];
            m.lemma_shed_step(owner, w, rest.take(j as int));
            assert(rest.take(j as int).push(w) =~= rest.take(k as int));
            left.lemma_kin_trans(m, n);
            assert forall|x: usize| x < TASK_SLOT_COUNT && x != owner implies #[trigger] n.task(x)
                == self.task(x) by {
                assert(n.task(x) == m.task(x));
            }
            assert forall|q: int| 64 <= q < 96 implies #[trigger] n.queues[q] == left.queues[q] by {
                assert(n.queues[q] == m.queues[q]);
            }
            assert(n.tasks[owner as int].waiting_mutex == left.tasks[owner as int].waiting_mutex);
        }
        if k < rest.len() {
            self.lemma_still_donates(n, mutex, owner, k);
            n.lemma_shed_step(owner, rest[k as int], rest.take(k as int));
        }
    }

    /// What holds while the new owner receives its donations.
    spec fn gathering(self, m: SchedModel, mutex: int, owner: usize, k: nat) -> bool {
        let waiters = self.mutex_waiters(mutex);
        let next = waiters[0];
        let rest = waiters.drop_first();
        let left = self.dequeued(64 + mutex, next);
        &&& m.sound()
        &&& m.sems_live()
        &&& m.exact_but(next, rest.skip(k as int))
        &&& m.mutex_owner == self.mutex_owner.update(mutex, next)
        &&& m.task(next).waiting_mutex == 0
        &&& m.task(next).waiting_sem == 0
        &&& m.task(next).granted_mutex == mutex + 1
        &&& m.task(owner).waiting_mutex == 0
        &&& forall|q: int| 64 <= q < 96 ==> #[trigger] m.queues[q] == left.queues[q]
        &&& forall|q: int, x: usize|
            32 <= q < 64 ==> (#[trigger] m.queues[q].contains(x) <==> left.queues[q].contains(x))
        &&& forall|x: usize|
            x < TASK_SLOT_COUNT && x != owner && x != next ==> #[trigger] m.task(x) == self.task(x)
        &&& m.task(owner) == (Tcb {
            priority: m.task(owner).priority,
            inherited_waiters: m.task(owner).inherited_waiters,
            ..self.task(owner)
        })
        &&& self.all_by_priority() ==> m.all_by_priority()
        &&& self.all_settled() ==> m.all_settled()
        &&& self.idle_unqueued() ==> m.idle_unqueued()
    }

    #[verifier::spinoff_prover]
    #[verifier::rlimit(50)]
    proof fn lemma_handed(self, mutex: int, owner: usize, now: u64)
        requires
            self.releasable(mutex, owner),
        ensures
            ({
                let next = self.mutex_waiters(mutex)[0];
                let m = self.mutex_disowned(mutex, owner);
                let t = m.task(next);
                let t2 = Tcb {
                    granted_mutex: t.waiting_mutex,
                    waiting_mutex: 0,
                    wake_at: 0,
                    sem_granted: true,
                    ..t
                };
                let h = m.with_mutex(mutex, next, 1).with_task(next, t2);
                &&& next < TASK_SLOT_COUNT
                &&& m.fits()
                &&& h.fits()
                &&& h.loose(next)
                &&& t == self.task(next)
                &&& self.gathering(m.mutex_handed(mutex, next, now), mutex, owner, 0)
            }),
    {
        let waiters = self.mutex_waiters(mutex);
        let next = waiters[0];
        let rest = waiters.drop_first();
        let queue = 64 + mutex;
        let left = self.dequeued(queue, next);
        self.lemma_waiter(mutex, 0);
        self.lemma_disowning_start(mutex, owner);
        self.lemma_disowning(mutex, owner, rest.len());
        links::lemma_drop_first(waiters);
        let m = self.mutex_disowned(mutex, owner);
        assert(rest.take(rest.len() as int) =~= rest);
        assert(m.exact_but(owner, rest));
        let t = m.task(next);
        assert(t == self.task(next));
        let t2 = Tcb {
            granted_mutex: t.waiting_mutex,
            waiting_mutex: 0,
            wake_at: 0,
            sem_granted: true,
            ..t
        };
        assert(m.tasks[next as int].priority < 32);
        let h0 = m.with_mutex(mutex, next, 1);
        assert(h0.fits()) by {
            assert forall|x: int| 0 <= x < 32 implies #[trigger] h0.mutex_owner[x] == NIL
                || h0.mutex_owner[x] < TASK_SLOT_COUNT by {
                assert(m.mutex_owner[x] == NIL || m.mutex_owner[x] < TASK_SLOT_COUNT);
            }
        }
        h0.lemma_fits_with_task(next, t2);
        let h = h0.with_task(next, t2);
        assert(left.queues[queue] == rest);
        assert(m.queues[queue] == rest);
        // The new owner is in no queue.
        assert forall|q: int| 0 <= q < 96 implies !(#[trigger] h.queues[q]).contains(next) by {
            assert(h.queues[q] == m.queues[q]);
            if m.queues[q].contains(next) {
                assert(q == m.home(next));
                assert(q == queue);
            }
        }
        assert forall|q: int, x: usize|
            #![trigger h.queues[q].contains(x)]
            0 <= q < 96 && h.queues[q].contains(x) implies h.seated(q, x) by {
            assert(m.queues[q].contains(x));
            if x == next {
                assert(!h.queues[q].contains(next));
            } else {
                assert(h.task(x) == m.task(x));
            }
        }
        assert(h.distinct());
        assert(h.waits_once()) by {
            assert forall|i: int| 0 <= i < TASK_SLOT_COUNT implies (
            #[trigger] h.tasks[i]).waiting_sem == 0 || h.tasks[i].waiting_mutex == 0 by {
                assert(m.tasks[i].waiting_sem == 0 || m.tasks[i].waiting_mutex == 0);
            }
        }
        assert forall|y: usize|
            y < TASK_SLOT_COUNT && (#[trigger] h.task(y)).waiting_sem != 0 implies {
            &&& h.queues[32 + h.task(y).waiting_sem - 1].contains(y)
            &&& h.task(y).state != State::Ready
        } by {
            assert(y != next);
            assert(h.task(y) == m.task(y));
            assert(m.task(y).waiting_sem != 0);
        }
        h.lemma_made_ready_sound(next, now);
        let n = m.mutex_handed(mutex, next, now);
        assert(n == h.made_ready(next, now));
        assert(rest.skip(0) =~= rest);
        assert forall|o: usize, level: u8|
            o < TASK_SLOT_COUNT && level < 32 implies #[trigger] n.donations(o, level)
            == n.donors_but(o, level, next, rest) by {
            assert(m.donations(o, level) == m.donors_but(o, level, owner, rest));
            assert forall|y: usize| y < TASK_SLOT_COUNT implies #[trigger] m.donates_but(
                y,
                o,
                level,
                owner,
                rest,
            ) == n.donates_but(y, o, level, next, rest) by {
                if y == next {
                    assert(!m.queues[queue].contains(next));
                    assert(m.task(next).waiting_mutex == mutex + 1);
                    assert(n.task(next).waiting_mutex == 0);
                } else {
                    assert(n.task(y) == m.task(y));
                    let w = m.task(y).waiting_mutex;
                    assert(m.tasks[y as int].waiting_mutex <= 32);
                    if w != 0 {
                        assert(n.queues[64 + w - 1] == m.queues[64 + w - 1]);
                    }
                    if rest.contains(y) {
                        assert(m.queues[queue].contains(y));
                        assert(m.home(y) == queue);
                        assert(m.tasks[y as int].waiting_sem <= 32);
                        assert(m.tasks[y as int].waiting_sem == 0 || m.tasks[y as int].waiting_mutex
                            == 0);
                        assert(w == mutex + 1);
                        assert(left.mutex_owner == self.mutex_owner);
                    } else if w == mutex + 1 {
                        assert(!m.queues[queue].contains(y));
                    }
                }
            }
            m.lemma_but_change(n, next, o, level, owner, rest, next, rest);
        }
        assert forall|x: usize|
            x < TASK_SLOT_COUNT && x != owner && x != next implies #[trigger] n.task(x)
            == self.task(x) by {
            assert(m.task(x) == self.task(x));
        }
        assert forall|q: int| 64 <= q < 96 implies #[trigger] n.queues[q] == left.queues[q] by {
            assert(m.queues[q] == left.queues[q]);
        }
        assert forall|q: int, x: usize| 32 <= q < 64 implies (#[trigger] n.queues[q].contains(x)
            <==> left.queues[q].contains(x)) by {
            assert(n.queues[q] == h.queues[q]);
            assert(m.queues[q].contains(x) <==> left.queues[q].contains(x));
        }
        assert(n.task(owner) == m.task(owner));
        assert(m.tasks[owner as int] == (Tcb {
            priority: m.tasks[owner as int].priority,
            inherited_waiters: m.tasks[owner as int].inherited_waiters,
            ..left.tasks[owner as int]
        }));
        if self.all_by_priority() || self.all_settled() {
            assert forall|x: usize| x < TASK_SLOT_COUNT implies {
                &&& (#[trigger] n.task(x)).priority == m.task(x).priority
                &&& n.task(x).base_priority == m.task(x).base_priority
                &&& n.task(x).inherited_waiters == m.task(x).inherited_waiters
            } by {}
            assert forall|q: int| 32 <= q < 96 implies #[trigger] n.queues[q] == m.queues[q] by {
                assert(n.queues[q] == h.queues[q]);
            }
            m.lemma_tidy_frame(n);
        }
        if self.idle_unqueued() && self.policy is None {
            let key = h.ready_key(next);
            assert forall|q: int| 0 <= q < 32 implies !(#[trigger] n.queues[q]).contains(
                IDLE_SLOT,
            ) by {
                assert(!m.queues[q].contains(IDLE_SLOT));
                if next != IDLE_SLOT && q == key {
                    let s = h.queues[q].push(next);
                    if s.contains(IDLE_SLOT) {
                        let i = s.index_of(IDLE_SLOT);
                        if i < h.queues[q].len() {
                            assert(h.queues[q][i] == IDLE_SLOT);
                        }
                    }
                }
            }
        }
    }

    /// A waiter that is still queued donates to the new owner.
    proof fn lemma_then_donates(self, m: SchedModel, mutex: int, owner: usize, k: nat)
        requires
            self.releasable(mutex, owner),
            self.gathering(m, mutex, owner, k),
            k < self.mutex_waiters(mutex).len() - 1,
        ensures
            ({
                let next = self.mutex_waiters(mutex)[0];
                let rest = self.mutex_waiters(mutex).drop_first();
                let w = rest[k as int];
                &&& w < TASK_SLOT_COUNT
                &&& w != owner
                &&& w != next
                &&& m.donates(w, next, m.task(w).priority)
                &&& m.task(w) == self.task(w)
                &&& m.queues[64 + mutex] == rest
                &&& rest.skip(k as int).len() > 0
                &&& rest.skip(k as int)[0] == w
                &&& rest.skip(k as int).no_duplicates()
                &&& rest.skip(k as int).drop_first() == rest.skip(k as int + 1)
            }),
    {
        let waiters = self.mutex_waiters(mutex);
        let next = waiters[0];
        let rest = waiters.drop_first();
        let w = rest[k as int];
        let left = self.dequeued(64 + mutex, next);
        self.lemma_waiter(mutex, k as int + 1);
        self.lemma_waiter(mutex, 0);
        assert(w == waiters[k as int + 1]);
        links::lemma_drop_first(waiters);
        assert(left.queues[64 + mutex] == rest);
        assert(m.queues[64 + mutex] == rest);
        assert(w != owner) by {
            assert(self.task(owner).waiting_mutex == 0);
        }
        assert(rest.contains(w));
        assert(w != next);
        assert(m.task(w) == self.task(w));
        let s = rest.skip(k as int);
        assert(s.drop_first() =~= rest.skip(k as int + 1));
        assert forall|i: int, j: int| 0 <= i < s.len() && 0 <= j < s.len() && i != j implies s[i]
            != s[j] by {
            assert(s[i] == rest[i + k] && s[j] == rest[j + k]);
        }
    }

    proof fn lemma_gathering(self, mutex: int, owner: usize, now: u64, k: nat)
        requires
            self.releasable(mutex, owner),
            k <= self.mutex_waiters(mutex).len() - 1,
        ensures
            ({
                let next = self.mutex_waiters(mutex)[0];
                let rest = self.mutex_waiters(mutex).drop_first();
                let start = self.mutex_disowned(mutex, owner).mutex_handed(mutex, next, now);
                &&& self.gathering(start.gathered(next, rest, k), mutex, owner, k)
                &&& k < rest.len() ==> {
                    let m = start.gathered(next, rest, k);
                    let p = m.task(rest[k as int]).priority;
                    &&& m.donations(next, p) < u8::MAX
                    &&& m.donated(next, p).refreshable(next, TASK_SLOT_COUNT as nat)
                }
            }),
        decreases k,
    {
        let next = self.mutex_waiters(mutex)[0];
        let rest = self.mutex_waiters(mutex).drop_first();
        let left = self.dequeued(64 + mutex, next);
        let start = self.mutex_disowned(mutex, owner).mutex_handed(mutex, next, now);
        self.lemma_waiter(mutex, 0);
        self.lemma_handed(mutex, owner, now);
        assert(next != owner) by {
            self.lemma_disowning_start(mutex, owner);
        }
        let n = start.gathered(next, rest, k);
        if k > 0 {
            let j = (k - 1) as nat;
            self.lemma_gathering(mutex, owner, now, j);
            let m = start.gathered(next, rest, j);
            self.lemma_then_donates(m, mutex, owner, j);
            let w = rest[j as int];
            m.lemma_gather_step(next, w, rest.skip(j as int));
            let back = n.with_diagnostics(m.diagnostics);
            assert forall|x: usize|
                x < TASK_SLOT_COUNT && x != owner && x != next implies #[trigger] n.task(x)
                == self.task(x) by {
                assert(n.task(x) == m.task(x));
            }
            assert(n.task(owner) == m.task(owner));
            assert(back.tasks[next as int] == (Tcb {
                priority: back.tasks[next as int].priority,
                inherited_waiters: back.tasks[next as int].inherited_waiters,
                ..m.tasks[next as int]
            }));
            assert forall|q: int| 64 <= q < 96 implies #[trigger] n.queues[q] == left.queues[q] by {
                assert(n.queues[q] == m.queues[q]);
            }
            assert forall|q: int, x: usize| 32 <= q < 64 implies (#[trigger] n.queues[q].contains(x)
                <==> left.queues[q].contains(x)) by {
                assert(back.queues[q].contains(x) <==> m.queues[q].contains(x));
            }
        }
        if k < rest.len() {
            self.lemma_then_donates(n, mutex, owner, k);
            n.lemma_gather_step(next, rest[k as int], rest.skip(k as int));
        }
    }

    /// Chains end after a handoff as they did before.
    proof fn lemma_handed_chain(
        self,
        n: SchedModel,
        mutex: int,
        owner: usize,
        slot: usize,
        fuel: nat,
    )
        requires
            self.releasable(mutex, owner),
            self.gathering(n, mutex, owner, (self.mutex_waiters(mutex).len() - 1) as nat),
            slot < TASK_SLOT_COUNT,
            self.chain_live(slot, fuel),
        ensures
            n.chain_live(slot, fuel),
        decreases fuel,
    {
        let next = self.mutex_waiters(mutex)[0];
        let left = self.dequeued(64 + mutex, next);
        let w = self.task(slot).waiting_mutex;
        assert(self.tasks[slot as int].waiting_mutex <= 32);
        if slot != next && slot != owner {
            assert(n.task(slot) == self.task(slot));
        }
        if slot != next && slot != owner && w != 0 {
            let q = 64 + w - 1;
            assert(n.queues[q] == left.queues[q]);
            links::lemma_without(self.queues[64 + mutex], next);
            assert(left.queues[q].contains(slot));
            if w == mutex + 1 {
                assert(self.blocker(slot) == Some(owner));
                assert(n.blocker(slot) == Some(next));
                assert(self.chain_live(owner, (fuel - 1) as nat));
                assert(n.task(next).waiting_mutex == 0);
                assert(n.chain_live(next, (fuel - 1) as nat));
            } else {
                assert(n.mutex_owner[w - 1] == self.mutex_owner[w - 1]);
                if self.mutex_owner[w - 1] != NIL {
                    assert(self.mutex_owner[w - 1] < TASK_SLOT_COUNT);
                    self.lemma_handed_chain(
                        n,
                        mutex,
                        owner,
                        self.mutex_owner[w - 1],
                        (fuel - 1) as nat,
                    );
                }
            }
        }
    }

    /// Letting go of a mutex keeps the state coherent and tidy.
    pub(crate) proof fn lemma_mutex_released(self, mutex: int, owner: usize, now: u64)
        requires
            self.coherent(),
            0 <= mutex < 32,
            owner < TASK_SLOT_COUNT,
            self.mutex_owner[mutex] == owner,
            self.task(owner).waiting_mutex == 0,
            self.task(owner).granted_mutex != mutex + 1,
        ensures
            self.mutex_released(mutex, owner, now).coherent(),
            self.tidy() ==> self.mutex_released(mutex, owner, now).tidy(),
    {
        let waiters = self.mutex_waiters(mutex);
        let n = self.mutex_released(mutex, owner, now);
        if waiters.len() == 0 {
            self.lemma_owner_changed(mutex, NIL, self.mutex_depth[mutex]);
        } else {
            let next = waiters[0];
            let rest = waiters.drop_first();
            let left = self.dequeued(64 + mutex, next);
            self.lemma_waiter(mutex, 0);
            self.lemma_gathering(mutex, owner, now, rest.len());
            assert(self.gathering(n, mutex, owner, rest.len()));
            assert(rest.skip(rest.len() as int).len() == 0);
            n.lemma_but_none(next, rest.skip(rest.len() as int));
            links::lemma_drop_first(waiters);
            assert(n.waits_live()) by {
                assert forall|x: usize| x < TASK_SLOT_COUNT implies {
                    let t = #[trigger] n.task(x);
                    &&& t.waiting_sem != 0 ==> t.state == State::Blocked && n.queues[32
                        + t.waiting_sem - 1].contains(x)
                    &&& t.waiting_mutex != 0 ==> t.state == State::Blocked && n.queues[64
                        + t.waiting_mutex - 1].contains(x)
                } by {
                    let u = self.task(x);
                    assert(self.tasks[x as int].waiting_mutex <= 32);
                    if x != next {
                        if x != owner {
                            assert(n.task(x) == u);
                        }
                        if u.waiting_sem != 0 {
                            let q = 32 + u.waiting_sem - 1;
                            assert(left.queues[q] == self.queues[q]);
                            assert(n.queues[q].contains(x) <==> left.queues[q].contains(x));
                        }
                        if u.waiting_mutex != 0 {
                            let q = 64 + u.waiting_mutex - 1;
                            assert(n.queues[q] == left.queues[q]);
                            assert(self.queues[q].contains(x));
                            assert(left.queues[q].contains(x));
                        }
                    }
                }
            }
            assert(n.acyclic()) by {
                assert forall|slot: usize| slot < TASK_SLOT_COUNT implies #[trigger] n.chain_live(
                    slot,
                    TASK_SLOT_COUNT as nat,
                ) by {
                    assert(self.chain_live(slot, TASK_SLOT_COUNT as nat));
                    self.lemma_handed_chain(n, mutex, owner, slot, TASK_SLOT_COUNT as nat);
                }
            }
            assert(n.waits_owned()) by {
                assert forall|slot: usize|
                    slot < TASK_SLOT_COUNT && (#[trigger] n.task(slot)).waiting_mutex
                        != 0 implies n.mutex_owner[n.task(slot).waiting_mutex - 1] != NIL by {
                    assert(n.task(slot) == self.task(slot));
                    assert(self.tasks[slot as int].waiting_mutex <= 32);
                }
            }
            assert(n.grants_live()) by {
                assert forall|slot: usize|
                    slot < TASK_SLOT_COUNT && (#[trigger] n.task(slot)).granted_mutex
                        != 0 implies n.mutex_owner[n.task(slot).granted_mutex - 1] == slot by {
                    if slot != next {
                        assert(n.task(slot).granted_mutex == self.task(slot).granted_mutex) by {
                            if slot != owner {
                                assert(n.task(slot) == self.task(slot));
                            }
                        }
                        assert(self.tasks[slot as int].granted_mutex <= 32);
                        let g = self.task(slot).granted_mutex;
                        assert(self.mutex_owner[g - 1] == slot);
                        if g == mutex + 1 {
                            assert(slot == owner);
                        }
                    }
                }
            }
        }
    }

    /// A mutex without waiters changes hands.
    pub(crate) proof fn lemma_owner_changed(self, mutex: int, owner: usize, depth: u32)
        requires
            self.coherent(),
            0 <= mutex < 32,
            owner == NIL || owner < TASK_SLOT_COUNT,
            self.mutex_waiters(mutex).len() == 0,
            forall|slot: usize|
                slot < TASK_SLOT_COUNT ==> (#[trigger] self.task(slot)).granted_mutex != mutex + 1,
        ensures
            self.with_mutex(mutex, owner, depth).coherent(),
            self.tidy() ==> self.with_mutex(mutex, owner, depth).tidy(),
    {
        let n = self.with_mutex(mutex, owner, depth);
        assert(n.fits()) by {
            assert forall|x: int| 0 <= x < 32 implies #[trigger] n.mutex_owner[x] == NIL
                || n.mutex_owner[x] < TASK_SLOT_COUNT by {
                assert(self.mutex_owner[x] == NIL || self.mutex_owner[x] < TASK_SLOT_COUNT);
            }
        }
        assert forall|q: int, x: usize|
            #![trigger n.queues[q].contains(x)]
            0 <= q < 96 && n.queues[q].contains(x) implies n.seated(q, x) by {
            assert(self.queues[q].contains(x));
        }
        // Nobody waits for it, so no donation and no chain passes it.
        assert forall|x: usize| x < TASK_SLOT_COUNT implies (#[trigger] self.task(x)).waiting_mutex
            != mutex + 1 by {
            if self.task(x).waiting_mutex == mutex + 1 {
                assert(self.queues[64 + mutex].contains(x));
            }
        }
        assert(n.waits_live()) by {
            assert forall|x: usize| x < TASK_SLOT_COUNT implies {
                let t = #[trigger] n.task(x);
                &&& t.waiting_sem != 0 ==> t.state == State::Blocked && n.queues[32 + t.waiting_sem
                    - 1].contains(x)
                &&& t.waiting_mutex != 0 ==> t.state == State::Blocked && n.queues[64
                    + t.waiting_mutex - 1].contains(x)
            } by {
                assert(n.task(x) == self.task(x));
            }
        }
        assert(n.exact()) by {
            assert forall|o: usize, level: u8|
                o < TASK_SLOT_COUNT && level < 32 implies #[trigger] n.donations(o, level)
                == n.donors(o, level) by {
                assert(self.donations(o, level) == self.donors(o, level));
                assert forall|x: usize| x < TASK_SLOT_COUNT implies #[trigger] self.donates(
                    x,
                    o,
                    level,
                ) == n.donates(x, o, level) by {
                    assert(self.task(x).waiting_mutex != mutex + 1);
                    assert(self.tasks[x as int].waiting_mutex <= 32);
                }
                self.lemma_donors_change(n, 0, o, level);
            }
        }
        assert(n.acyclic()) by {
            assert forall|slot: usize| slot < TASK_SLOT_COUNT implies #[trigger] n.chain_live(
                slot,
                TASK_SLOT_COUNT as nat,
            ) by {
                assert(self.chain_live(slot, TASK_SLOT_COUNT as nat));
                self.lemma_unwaited_chain(n, mutex, slot, TASK_SLOT_COUNT as nat);
            }
        }
        assert(n.waits_owned()) by {
            assert forall|slot: usize|
                slot < TASK_SLOT_COUNT && (#[trigger] n.task(slot)).waiting_mutex
                    != 0 implies n.mutex_owner[n.task(slot).waiting_mutex - 1] != NIL by {
                assert(self.task(slot).waiting_mutex != mutex + 1);
                assert(self.tasks[slot as int].waiting_mutex <= 32);
            }
        }
        assert(n.grants_live()) by {
            assert forall|slot: usize|
                slot < TASK_SLOT_COUNT && (#[trigger] n.task(slot)).granted_mutex
                    != 0 implies n.mutex_owner[n.task(slot).granted_mutex - 1] == slot by {
                assert(self.task(slot).granted_mutex != mutex + 1);
                assert(self.tasks[slot as int].granted_mutex <= 32);
            }
        }
        self.lemma_tidy_frame(n);
    }

    proof fn lemma_unwaited_chain(self, n: SchedModel, mutex: int, slot: usize, fuel: nat)
        requires
            self.fits(),
            slot < TASK_SLOT_COUNT,
            0 <= mutex < 32,
            n.tasks == self.tasks,
            n.queues == self.queues,
            n.mutex_owner.len() == 32,
            forall|x: int| 0 <= x < 32 && x != mutex ==> #[trigger] n.mutex_owner[x]
                == self.mutex_owner[x],
            forall|x: usize|
                x < TASK_SLOT_COUNT ==> (#[trigger] self.task(x)).waiting_mutex != mutex + 1,
            self.chain_live(slot, fuel),
        ensures
            n.chain_live(slot, fuel),
        decreases fuel,
    {
        let w = self.task(slot).waiting_mutex;
        assert(self.tasks[slot as int].waiting_mutex <= 32);
        if w != 0 {
            assert(w != mutex + 1);
            assert(n.mutex_owner[w - 1] == self.mutex_owner[w - 1]);
            if self.mutex_owner[w - 1] != NIL {
                assert(self.mutex_owner[w - 1] < TASK_SLOT_COUNT);
                self.lemma_unwaited_chain(n, mutex, self.mutex_owner[w - 1], (fuel - 1) as nat);
            }
        }
    }
}

impl Sched {
    /// The slot that follows a waiter of a mutex.
    proof fn lemma_next_waiter(self, mutex: usize, k: int)
        requires
            self.wf(),
            mutex < 32,
            0 <= k < self@.mutex_waiters(mutex as int).len(),
        ensures
            ({
                let s = self@.mutex_waiters(mutex as int);
                &&& s[k] < TASK_SLOT_COUNT
                &&& self.tasks@[s[k] as int].next == (if k + 1 < s.len() {
                    s[k + 1]
                } else {
                    NIL
                })
            }),
    {
        let q = 64 + mutex as int;
        let l = self.linkage();
        let s = l.list(q);
        assert(self@.queues[q] == s);
        assert(s[k] < links::links_of(self.tasks@).len());
    }

    proof fn lemma_first_waiter(self, mutex: usize)
        requires
            self.wf(),
            mutex < 32,
        ensures
            ({
                let s = self@.mutex_waiters(mutex as int);
                self.mutexes@[mutex as int].wait_head == (if s.len() > 0 {
                    s[0]
                } else {
                    NIL
                })
            }),
    {
        let q = 64 + mutex as int;
        assert(self@.queues[q] == self.linkage().list(q));
    }

    /// Hands a mutex to its best waiter, or leaves it without an owner.
    pub fn release_mutex_locked(&mut self, mutex: usize, owner: usize, now: u64)
        requires
            old(self).wf(),
            old(self)@.coherent(),
            mutex < 32,
            owner < TASK_SLOT_COUNT,
            old(self)@.mutex_owner[mutex as int] == owner,
            old(self)@.task(owner).waiting_mutex == 0,
            old(self)@.task(owner).granted_mutex != mutex + 1,
        ensures
            final(self).wf(),
            final(self)@.coherent(),
            final(self)@ == old(self)@.mutex_released(mutex as int, owner, now),
    {
        let ghost m0 = self@;
        let ghost x = mutex as int;
        let ghost waiters = m0.mutex_waiters(x);
        proof {
            m0.lemma_mutex_released(x, owner, now);
        }
        let next: usize = self.pop_mutex_waiter(mutex);
        if next == NIL {
            assert(waiters.len() == 0);
            let depth: u32 = self.mutexes[mutex].depth;
            assert(depth == m0.mutex_depth[x]);
            self.set_mutex(mutex, NIL, depth);
            return;
        }
        let ghost rest = waiters.drop_first();
        let ghost start = m0.dequeued(64 + x, next).inheritance_removed(
            owner,
            m0.task(next).priority,
        );
        proof {
            assert(waiters.len() > 0);
            assert(m0.releasable(x, owner));
            m0.lemma_waiter(x, 0);
            m0.lemma_disowning_start(x, owner);
            links::lemma_drop_first(waiters);
            assert(self@.tasks[next as int] == self.tasks@[next as int].unlinked());
            assert(m0.tasks[next as int].priority < 32);
        }
        let priority: u8 = self.tasks[next].priority;
        self.remove_inheritance(owner, priority);
        assert(self@ == start.shed(owner, rest, 0));
        proof {
            m0.lemma_disowning(x, owner, 0);
            assert(self@.queues[64 + x] == m0.dequeued(64 + x, next).queues[64 + x]);
            self.lemma_first_waiter(mutex);
        }
        let mut waiter: usize = self.mutexes[mutex].wait_head;
        let ghost mut k: nat = 0;
        while waiter != NIL
            invariant
                self.wf(),
                m0.releasable(x, owner),
                x == mutex,
                mutex < 32,
                owner < TASK_SLOT_COUNT,
                waiters == m0.mutex_waiters(x),
                rest == waiters.drop_first(),
                next == waiters[0],
                start == m0.dequeued(64 + x, next).inheritance_removed(
                    owner,
                    m0.task(next).priority,
                ),
                k <= rest.len(),
                self@ == start.shed(owner, rest, k),
                m0.disowning(self@, x, owner, k),
                self@.mutex_waiters(x) == rest,
                waiter == (if k < rest.len() {
                    rest[k as int]
                } else {
                    NIL
                }),
            decreases rest.len() - k,
        {
            proof {
                m0.lemma_disowning(x, owner, k);
                m0.lemma_disowning(x, owner, k + 1);
                m0.lemma_still_donates(self@, x, owner, k);
                self.lemma_next_waiter(mutex, k as int);
                assert(self@.tasks[waiter as int] == self.tasks@[waiter as int].unlinked());
                assert(self@.tasks[waiter as int].priority < 32);
            }
            let priority: u8 = self.tasks[waiter].priority;
            self.remove_inheritance(owner, priority);
            proof {
                assert(self@ == start.shed(owner, rest, k + 1));
                k = k + 1;
                assert(self@.queues[64 + x] == m0.dequeued(64 + x, next).queues[64 + x]);
                self.lemma_next_waiter(mutex, k - 1);
            }
            waiter = self.tasks[waiter].next;
            proof {
                if k < rest.len() {
                    self.lemma_next_waiter(mutex, k as int);
                }
            }
        }
        proof {
            if k < rest.len() {
                self.lemma_next_waiter(mutex, k as int);
            }
            assert(k == rest.len());
            m0.lemma_handed(x, owner, now);
            assert(self@ == m0.mutex_disowned(x, owner));
        }
        let ghost m1 = self@;
        self.set_mutex(mutex, next, 1);
        assert(self@.tasks[next as int] == self.tasks@[next as int].unlinked());
        let mut task = self.tasks[next];
        task.granted_mutex = task.waiting_mutex;
        task.waiting_mutex = 0;
        task.wake_at = 0;
        task.sem_granted = true;
        self.set_task(next, task);
        self.make_ready(next, now);
        assert(self@ =~= m1.mutex_handed(x, next, now));
        let ghost begin = self@;
        proof {
            m0.lemma_gathering(x, owner, now, 0);
            assert(self@.queues[64 + x] == m0.dequeued(64 + x, next).queues[64 + x]);
            self.lemma_first_waiter(mutex);
            k = 0;
        }
        waiter = self.mutexes[mutex].wait_head;
        while waiter != NIL
            invariant
                self.wf(),
                m0.releasable(x, owner),
                x == mutex,
                mutex < 32,
                owner < TASK_SLOT_COUNT,
                next < TASK_SLOT_COUNT,
                waiters == m0.mutex_waiters(x),
                rest == waiters.drop_first(),
                next == waiters[0],
                begin == m0.mutex_disowned(x, owner).mutex_handed(x, next, now),
                k <= rest.len(),
                self@ == begin.gathered(next, rest, k),
                m0.gathering(self@, x, owner, k),
                self@.mutex_waiters(x) == rest,
                waiter == (if k < rest.len() {
                    rest[k as int]
                } else {
                    NIL
                }),
            decreases rest.len() - k,
        {
            proof {
                m0.lemma_gathering(x, owner, now, k);
                m0.lemma_gathering(x, owner, now, k + 1);
                m0.lemma_then_donates(self@, x, owner, k);
                self.lemma_next_waiter(mutex, k as int);
                assert(self@.tasks[waiter as int] == self.tasks@[waiter as int].unlinked());
                assert(self@.tasks[waiter as int].priority < 32);
            }
            let priority: u8 = self.tasks[waiter].priority;
            self.add_inheritance(next, priority);
            proof {
                assert(self@ == begin.gathered(next, rest, k + 1));
                k = k + 1;
                assert(self@.queues[64 + x] == m0.dequeued(64 + x, next).queues[64 + x]);
                self.lemma_next_waiter(mutex, k - 1);
            }
            waiter = self.tasks[waiter].next;
            proof {
                if k < rest.len() {
                    self.lemma_next_waiter(mutex, k as int);
                }
            }
        }
        proof {
            if k < rest.len() {
                self.lemma_next_waiter(mutex, k as int);
            }
            assert(k == rest.len());
            assert(self@ == m0.mutex_released(x, owner, now));
        }
    }
}

} // verus!
