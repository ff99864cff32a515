//! Effective priority and its inheritance along chains of mutex owners.
use vstd::prelude::*;
use crate::config::{NIL, TASK_SLOT_COUNT};
use crate::links;
use crate::metrics::bump;
use crate::model::SchedModel;
use crate::scheduler::Sched;
use crate::task::{State, Tcb};

verus! {

impl SchedModel {
    /// No slot is in two queues or twice in one, and only slots are queued.
    pub open spec fn distinct(self) -> bool {
        &&& forall|q: int| 0 <= q < 96 ==> (#[trigger] self.queues[q]).no_duplicates()
        &&& forall|q: int, slot: usize|
            0 <= q < 96 && #[trigger] self.queues[q].contains(slot) ==> slot < TASK_SLOT_COUNT
        &&& forall|p: int, q: int, slot: usize|
            #![trigger self.queues[p].contains(slot), self.queues[q].contains(slot)]
            0 <= p < 96 && 0 <= q < 96 && self.queues[p].contains(slot) && self.queues[q].contains(
                slot,
            ) ==> p == q
    }

    /// Joining a queue by priority adds exactly one member.
    pub(crate) proof fn lemma_enqueued_members(self, queue: int, slot: usize)
        requires
            0 <= queue < self.queues.len(),
            self.queues[queue].no_duplicates(),
            !self.queues[queue].contains(slot),
        ensures
            self.enqueued(queue, slot).queues[queue].no_duplicates(),
            forall|x: usize| #[trigger]
                self.enqueued(queue, slot).queues[queue].contains(x) <==> (x == slot
                    || self.queues[queue].contains(x)),
    {
        let s = self.queues[queue];
        let priority = self.task(slot).priority;
        links::lemma_rank(self.tasks, s, priority);
        links::lemma_inserted(s, links::rank(self.tasks, s, priority) as int, slot);
    }

    /// Changing a priority keeps every task in its home queue.
    pub(crate) proof fn lemma_with_priority_placed(self, slot: usize, priority: u8)
        requires
            self.fits(),
            self.placed(),
            self.distinct(),
            slot < TASK_SLOT_COUNT,
            priority < 32,
        ensures
            self.with_priority(slot, priority).placed(),
    {
        reveal(SchedModel::with_priority);
        let m = self.with_priority(slot, priority);
        let t = self.task(slot);
        assert(self.tasks[slot as int].priority < 32);
        let key = self.ready_key(slot);
        if t.priority != priority {
            if t.state == State::Ready && self.ready_queued(slot) {
                links::lemma_without(self.queues[key], slot);
                let m1 = self.ready_removed(slot).with_priority_field(slot, priority);
                let new_key = m1.ready_key(slot);
                links::lemma_appended(m1.queues[new_key], slot);
                assert(self.queues[key].contains(slot));
            } else if t.state != State::Ready && t.waiting_sem != 0 {
                let queue = 32 + t.waiting_sem - 1;
                links::lemma_without(self.queues[queue], slot);
                let m1 = self.dequeued(queue, slot).with_priority_field(slot, priority);
                m1.lemma_enqueued_members(queue, slot);
            }
            assert forall|q: int, x: usize|
                #![trigger m.queues[q].contains(x)]
                0 <= q < 96 && m.queues[q].contains(x) implies m.seated(q, x) by {
                if x != slot {
                    assert(self.queues[q].contains(x));
                    assert(m.task(x) == self.task(x));
                } else if t.state == State::Ready && self.ready_queued(slot) {
                    assert(self.home(slot) == key);
                    if q != m.ready_key(slot) {
                        assert(self.queues[q].contains(x));
                    }
                } else if t.state != State::Ready && t.waiting_sem != 0 {
                    if q != 32 + t.waiting_sem - 1 {
                        assert(self.queues[q].contains(x));
                    }
                } else {
                    assert(self.queues[q].contains(x));
                }
            }
        }
    }

    /// What a priority change leaves as it was.
    pub(crate) proof fn lemma_with_priority_frame(self, slot: usize, priority: u8)
        requires
            self.fits(),
            slot < TASK_SLOT_COUNT,
            priority < 32,
        ensures
            self.with_priority(slot, priority).tasks == self.tasks.update(
                slot as int,
                Tcb { priority, ..self.task(slot) },
            ),
            self.with_priority(slot, priority).mutex_owner == self.mutex_owner,
            self.with_priority(slot, priority).fits(),
    {
        reveal(SchedModel::with_priority);
        let m = self.with_priority(slot, priority);
        assert(self.tasks[slot as int].priority < 32);
        assert(m.tasks =~= self.tasks.update(slot as int, Tcb { priority, ..self.task(slot) }));
        assert forall|i: int| 0 <= i < TASK_SLOT_COUNT implies {
            let t = #[trigger] m.tasks[i];
            &&& t.priority < 32
            &&& t.base_priority < 32
            &&& t.waiting_sem <= 32
            &&& t.waiting_mutex <= 32
            &&& t.granted_sem <= 32
            &&& t.granted_mutex <= 32
        } by {
            assert(self.tasks[i].priority < 32);
        }
    }

    /// Leaving and joining its mutex queue keeps every task in its home queue.
    pub(crate) proof fn lemma_requeued_placed(self, slot: usize)
        requires
            self.fits(),
            self.placed(),
            self.distinct(),
            slot < TASK_SLOT_COUNT,
            self.task(slot).waiting_mutex != 0,
            self.task(slot).waiting_sem == 0,
        ensures
            self.dequeued(self.home(slot), slot).enqueued(self.home(slot), slot).placed(),
    {
        let h = self.home(slot);
        let m1 = self.dequeued(h, slot);
        let m = m1.enqueued(h, slot);
        links::lemma_without(self.queues[h], slot);
        m1.lemma_enqueued_members(h, slot);
        assert forall|q: int, x: usize|
            #![trigger m.queues[q].contains(x)]
            0 <= q < 96 && m.queues[q].contains(x) implies m.seated(q, x) by {
            if x != slot {
                assert(self.queues[q].contains(x));
            } else if q != h {
                assert(self.queues[q].contains(x));
            }
        }
    }

    /// Leaving its home queue makes a placed task a member of no queue.
    pub(crate) proof fn lemma_placed_removed(self, slot: usize)
        requires
            self.placed(),
            self.fits(),
            slot < TASK_SLOT_COUNT,
            self.distinct(),
        ensures
            self.dequeued(self.home(slot), slot).loose(slot),
    {
        let h = self.home(slot);
        assert(self.tasks[slot as int].priority < 32);
        links::lemma_without(self.queues[h], slot);
    }
}

impl Sched {
    pub(crate) proof fn lemma_queues_distinct(self)
        requires
            self.linkage().linked(),
        ensures
            self@.distinct(),
    {
        let l = self.linkage();
        assert forall|q: int| 0 <= q < 96 implies #[trigger] self@.queues[q] == l.list(q) by {}
        assert forall|q: int, slot: usize|
            0 <= q < 96 && #[trigger] self@.queues[q].contains(slot) implies slot
            < TASK_SLOT_COUNT by {
            let s = l.list(q);
            assert(self@.queues[q] == s);
            let i = s.index_of(slot);
            assert(s[i] < links::links_of(self.tasks@).len());
        }
        assert forall|p: int, q: int, slot: usize|
            #![trigger self@.queues[p].contains(slot), self@.queues[q].contains(slot)]
            0 <= p < 96 && 0 <= q < 96 && self@.queues[p].contains(slot) && self@.queues[q].contains(
                slot,
            ) implies p == q by {
            assert(self@.queues[p] == l.list(p));
            assert(self@.queues[q] == l.list(q));
        }
    }

    fn set_priority_field(&mut self, slot: usize, priority: u8)
        requires
            old(self).wf(),
            slot < TASK_SLOT_COUNT,
            priority < 32,
        ensures
            final(self).wf(),
            final(self)@ == old(self)@.with_priority_field(slot, priority),
    {
        let mut task = self.tasks[slot];
        task.priority = priority;
        assert(self@.tasks[slot as int] == self.tasks@[slot as int].unlinked());
        self.set_task(slot, task);
        assert(self@ =~= old(self)@.with_priority_field(slot, priority));
    }

    /// Changes the effective priority of a task and moves it within the queue that
    /// it is in.
    pub fn set_effective_priority(&mut self, task: usize, priority: u8)
        requires
            old(self).wf(),
            old(self)@.placed(),
            task < TASK_SLOT_COUNT,
            priority < 32,
        ensures
            final(self).wf(),
            final(self)@ == old(self)@.with_priority(task, priority),
    {
        reveal(SchedModel::with_priority);
        assert(self@.tasks[task as int] == self.tasks@[task as int].unlinked());
        if self.tasks[task].priority == priority {
            return;
        }
        if self.tasks[task].state == State::Ready {
            let queued = self.ready_remove(task);
            self.set_priority_field(task, priority);
            if queued {
                self.ready_push(task);
            } else {
                proof {
                    let m = old(self)@;
                    let key = m.ready_key(task);
                    assert(m.queues.update(key, m.queues[key]) =~= m.queues);
                }
            }
        } else if self.tasks[task].waiting_sem != 0 {
            let sem: usize = self.tasks[task].waiting_sem - 1;
            proof {
                self.lemma_queues_distinct();
                self@.lemma_placed_removed(task);
            }
            self.remove_waiter(sem, task);
            self.set_priority_field(task, priority);
            self.enqueue_waiter(sem, task);
        } else {
            self.set_priority_field(task, priority);
        }
    }

    fn set_donations(&mut self, slot: usize, level: u8, count: u8)
        requires
            old(self).wf(),
            slot < TASK_SLOT_COUNT,
            level < 32,
        ensures
            final(self).wf(),
            final(self)@ == old(self)@.with_donations(slot, level, count),
    {
        let mut task = self.tasks[slot];
        task.inherited_waiters[level as usize] = count;
        assert(self@.tasks[slot as int] == self.tasks@[slot as int].unlinked());
        proof {
            let t = self.tasks@[slot as int];
            assert(task.inherited_waiters =~= vstd::array::spec_array_update(
                t.inherited_waiters,
                level as int,
                count,
            ));
        }
        self.set_task(slot, task);
        assert(self@ =~= old(self)@.with_donations(slot, level, count));
    }

    /// Recomputes the effective priority of a task and passes a change on to the
    /// owner of the mutex that it waits for, and so on along the chain.
    ///
    /// `depth` counts the tasks of the chain that have been refreshed before.
    pub fn refresh_inherited_priority(&mut self, task: usize, depth: usize)
        requires
            old(self).wf(),
            old(self)@.placed(),
            old(self)@.waits_once(),
            task < TASK_SLOT_COUNT,
            depth < TASK_SLOT_COUNT,
            old(self)@.refreshable(task, (TASK_SLOT_COUNT - depth) as nat),
        ensures
            final(self).wf(),
            final(self)@.placed(),
            final(self)@.waits_once(),
            final(self)@ == old(self)@.refreshed(task, (TASK_SLOT_COUNT - depth) as nat),
        decreases TASK_SLOT_COUNT - depth, 0nat,
    {
        let ghost m0 = self@;
        let ghost fuel = (TASK_SLOT_COUNT - depth) as nat;
        assert(m0.tasks[task as int] == self.tasks@[task as int].unlinked());
        let old_priority: u8 = self.tasks[task].priority;
        let new_priority: u8 = self.tasks[task].effective_priority();
        proof {
            lemma_effective_unlinked(self.tasks@[task as int]);
        }
        if old_priority == new_priority {
            return;
        }
        proof {
            assert(m0.tasks[task as int].base_priority < 32);
            lemma_effective_bound(m0.task(task));
            self.lemma_queues_distinct();
            m0.lemma_with_priority_placed(task, new_priority);
            m0.lemma_with_priority_frame(task, new_priority);
        }
        self.set_effective_priority(task, new_priority);
        let ghost m1 = self@;
        assert(m1.task(task) == (Tcb { priority: new_priority, ..m0.task(task) }));
        assert(m1.waits_once()) by {
            assert forall|i: int| 0 <= i < TASK_SLOT_COUNT implies (
            #[trigger] m1.tasks[i]).waiting_sem == 0 || m1.tasks[i].waiting_mutex == 0 by {
                assert(m0.tasks[i].waiting_sem == 0 || m0.tasks[i].waiting_mutex == 0);
            }
        }
        assert(m1.tasks[task as int] == self.tasks@[task as int].unlinked());
        let waiting_mutex: usize = self.tasks[task].waiting_mutex;
        if waiting_mutex != 0 {
            let mutex: usize = waiting_mutex - 1;
            proof {
                self.lemma_queues_distinct();
                m1.lemma_placed_removed(task);
                m1.lemma_requeued_placed(task);
            }
            self.remove_mutex_waiter(mutex, task);
            self.enqueue_mutex_waiter(mutex, task);
            let owner: usize = self.mutexes[mutex].owner;
            assert(owner == self@.mutex_owner[mutex as int]);
            assert(self@.mutex_owner == m0.mutex_owner);
            if owner != NIL {
                assert(m0.mutex_owner[mutex as int] < TASK_SLOT_COUNT);
                proof {
                    let n = self@.redonated(owner, old_priority, new_priority);
                    assert(n.refreshable(owner, (fuel - 1) as nat));
                    assert(!n.refreshable(owner, 0));
                }
                self.replace_inheritance(owner, old_priority, new_priority, depth + 1);
            }
        }
    }

    /// Moves one donation to `owner` from one level to another.
    pub fn replace_inheritance(
        &mut self,
        owner: usize,
        old_priority: u8,
        new_priority: u8,
        depth: usize,
    )
        requires
            old(self).wf(),
            old(self)@.placed(),
            old(self)@.waits_once(),
            owner < TASK_SLOT_COUNT,
            old_priority < 32,
            new_priority < 32,
            old_priority != new_priority ==> {
                &&& depth < TASK_SLOT_COUNT
                &&& old(self)@.donations(owner, old_priority) > 0
                &&& old(self)@.donations(owner, new_priority) < u8::MAX
                &&& old(self)@.redonated(owner, old_priority, new_priority).refreshable(
                    owner,
                    (TASK_SLOT_COUNT - depth) as nat,
                )
            },
        ensures
            final(self).wf(),
            final(self)@.placed(),
            final(self)@.waits_once(),
            final(self)@ == (if old_priority == new_priority {
                old(self)@
            } else {
                old(self)@.redonated(owner, old_priority, new_priority).refreshed(
                    owner,
                    (TASK_SLOT_COUNT - depth) as nat,
                )
            }),
        decreases TASK_SLOT_COUNT - depth, 1nat,
    {
        if old_priority == new_priority {
            return;
        }
        let ghost m0 = self@;
        assert(m0.tasks[owner as int] == self.tasks@[owner as int].unlinked());
        let old_count: u8 = self.tasks[owner].inherited_waiters[old_priority as usize];
        self.set_donations(owner, old_priority, old_count - 1);
        assert(self@.tasks[owner as int] == self.tasks@[owner as int].unlinked());
        let new_count: u8 = self.tasks[owner].inherited_waiters[new_priority as usize];
        assert(new_count == m0.donations(owner, new_priority));
        self.set_donations(owner, new_priority, new_count + 1);
        assert(self@ == m0.redonated(owner, old_priority, new_priority));
        proof {
            old(self).lemma_queues_distinct();
            lemma_redonated_keeps_placement(m0, owner, old_priority, new_priority);
        }
        self.refresh_inherited_priority(owner, depth);
    }

    /// Adds one donation and refreshes the owner.
    pub fn add_inheritance(&mut self, owner: usize, priority: u8)
        requires
            old(self).wf(),
            old(self)@.placed(),
            old(self)@.waits_once(),
            owner < TASK_SLOT_COUNT,
            priority < 32,
            old(self)@.donations(owner, priority) < u8::MAX,
            old(self)@.donated(owner, priority).refreshable(owner, TASK_SLOT_COUNT as nat),
        ensures
            final(self).wf(),
            final(self)@.placed(),
            final(self)@.waits_once(),
            final(self)@ == old(self)@.inheritance_added(owner, priority),
    {
        let ghost m0 = self@;
        assert(m0.tasks[owner as int] == self.tasks@[owner as int].unlinked());
        let count: u8 = self.tasks[owner].inherited_waiters[priority as usize];
        self.set_donations(owner, priority, count + 1);
        self.diagnostics.priority_inheritances = bump(self.diagnostics.priority_inheritances);
        assert(self@ == m0.donated(owner, priority));
        proof {
            old(self).lemma_queues_distinct();
            lemma_donations_keep_placement(m0, owner, priority, (count + 1) as u8);
        }
        self.refresh_inherited_priority(owner, 0);
    }

    /// Takes one donation away and refreshes the owner.
    pub fn remove_inheritance(&mut self, owner: usize, priority: u8)
        requires
            old(self).wf(),
            old(self)@.placed(),
            old(self)@.waits_once(),
            owner < TASK_SLOT_COUNT,
            priority < 32,
            old(self)@.donations(owner, priority) > 0,
            old(self)@.undonated(owner, priority).refreshable(owner, TASK_SLOT_COUNT as nat),
        ensures
            final(self).wf(),
            final(self)@.placed(),
            final(self)@.waits_once(),
            final(self)@ == old(self)@.inheritance_removed(owner, priority),
    {
        let ghost m0 = self@;
        assert(m0.tasks[owner as int] == self.tasks@[owner as int].unlinked());
        let count: u8 = self.tasks[owner].inherited_waiters[priority as usize];
        self.set_donations(owner, priority, count - 1);
        proof {
            old(self).lemma_queues_distinct();
            lemma_donations_keep_placement(m0, owner, priority, (count - 1) as u8);
        }
        self.refresh_inherited_priority(owner, 0);
    }
}

/// The link of a block plays no part in its effective priority.
pub(crate) proof fn lemma_effective_unlinked(task: Tcb)
    ensures
        task.unlinked().effective() == task.effective(),
{
    lemma_best_donation_same(task.unlinked(), task, 0);
}

/// The best donation depends on the donations alone.
pub(crate) proof fn lemma_best_donation_same(a: Tcb, b: Tcb, level: int)
    requires
        a.inherited_waiters@ == b.inherited_waiters@,
    ensures
        a.best_donation(level) == b.best_donation(level),
    decreases 32 - level,
{
    if 0 <= level < 32 {
        lemma_best_donation_same(a, b, level + 1);
    }
}

/// The effective priority is never worse than the base priority.
pub(crate) proof fn lemma_effective_bound(task: Tcb)
    ensures
        task.effective() <= task.base_priority,
{
}

pub(crate) proof fn lemma_donations_keep_placement(m: SchedModel, slot: usize, level: u8, count: u8)
    requires
        m.fits(),
        m.placed(),
        m.distinct(),
        m.waits_once(),
        slot < TASK_SLOT_COUNT,
    ensures
        m.with_donations(slot, level, count).placed(),
        m.with_donations(slot, level, count).waits_once(),
{
    let n = m.with_donations(slot, level, count);
    assert forall|q: int, x: usize|
        #![trigger n.queues[q].contains(x)]
        0 <= q < 96 && n.queues[q].contains(x) implies n.seated(q, x) by {
        assert(m.queues[q].contains(x));
    }
    assert forall|i: int| 0 <= i < TASK_SLOT_COUNT implies (#[trigger] n.tasks[i]).waiting_sem == 0
        || n.tasks[i].waiting_mutex == 0 by {
        assert(m.tasks[i].waiting_sem == 0 || m.tasks[i].waiting_mutex == 0);
    }
}

pub(crate) proof fn lemma_redonated_keeps_placement(m: SchedModel, slot: usize, from: u8, to: u8)
    requires
        m.fits(),
        m.placed(),
        m.distinct(),
        m.waits_once(),
        slot < TASK_SLOT_COUNT,
        from < 32,
        to < 32,
    ensures
        m.redonated(slot, from, to).placed(),
        m.redonated(slot, from, to).waits_once(),
{
    let n = m.with_donations(slot, from, (m.donations(slot, from) - 1) as u8);
    lemma_donations_keep_placement(m, slot, from, (m.donations(slot, from) - 1) as u8);
    assert(n.fits()) by {
        assert forall|i: int| 0 <= i < TASK_SLOT_COUNT implies (#[trigger] n.tasks[i]).priority
            == m.tasks[i].priority by {}
    }
    lemma_donations_keep_placement(n, slot, to, (n.donations(slot, to) + 1) as u8);
}

} // verus!
