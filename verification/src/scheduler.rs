//! The single-hart scheduler.
use vstd::prelude::*;
use crate::config::{
    Diagnostics, SchedulingPolicy, IDLE_SLOT, NIL, PRIORITY_LEVELS, TASK_SLOT_COUNT,
};
use crate::links;
use crate::model::{SchedModel, SwitchIntent};
use crate::nonzero::NonZeroU32;
use crate::reservation::ReservationTable;
use crate::task::{State, Tcb};

verus! {

/// State of one counting semaphore.
#[derive(Clone, Copy, Debug, Eq, PartialEq, Structural)]
pub struct SemState {
    pub count: i32,
    pub wait_head: usize,
    pub wait_tail: usize,
}

impl SemState {
    pub fn new(count: i32) -> (r: Self)
        ensures
            r.count == count,
            r.wait_head == NIL,
            r.wait_tail == NIL,
    {
        SemState { count, wait_head: NIL, wait_tail: NIL }
    }
}

/// State of one recursive mutex with priority inheritance.
#[derive(Clone, Copy, Debug, Eq, PartialEq, Structural)]
pub struct MutexState {
    pub owner: usize,
    pub depth: u32,
    pub wait_head: usize,
    pub wait_tail: usize,
}

impl MutexState {
    pub fn new() -> (r: Self)
        ensures
            r.owner == NIL,
            r.depth == 0,
            r.wait_head == NIL,
            r.wait_tail == NIL,
    {
        MutexState { owner: NIL, depth: 0, wait_head: NIL, wait_tail: NIL }
    }
}

/// The scheduler.
pub struct Sched {
    pub tasks: [Tcb; 17],
    pub current: usize,
    pub ready_head: [usize; 32],
    pub ready_tail: [usize; 32],
    pub sems: [SemState; 32],
    pub mutexes: [MutexState; 32],
    pub retired_stacks: [usize; 17],
    pub retired_count: usize,
    pub slot_generations: [u16; 17],
    pub time_slice_pending: bool,
    pub time_slice_deadline: u64,
    pub pending_switch: Option<SwitchIntent>,
    pub started: bool,
    pub diagnostics: Diagnostics,
    pub reservations: ReservationTable,
    pub policy: Option<SchedulingPolicy>,
    pub time_slice: Option<NonZeroU32>,
}

/// The linked part of a scheduler.
pub struct Linkage {
    pub tasks: [Tcb; 17],
    pub ready_head: [usize; 32],
    pub ready_tail: [usize; 32],
    pub sems: [SemState; 32],
    pub mutexes: [MutexState; 32],
}

impl Linkage {
    pub open spec fn head(self, q: int) -> usize {
        if q < 32 {
            self.ready_head@[q]
        } else if q < 64 {
            self.sems@[q - 32].wait_head
        } else {
            self.mutexes@[q - 64].wait_head
        }
    }

    pub open spec fn tail(self, q: int) -> usize {
        if q < 32 {
            self.ready_tail@[q]
        } else if q < 64 {
            self.sems@[q - 32].wait_tail
        } else {
            self.mutexes@[q - 64].wait_tail
        }
    }

    pub open spec fn list(self, q: int) -> Seq<usize> {
        links::chain(self.tasks@, self.head(q))
    }

    /// Every head and tail delimits a queue and no slot is in two queues.
    pub open spec fn linked(self) -> bool {
        &&& forall|q: int|
            0 <= q < 96 ==> links::is_list(
                links::links_of(self.tasks@),
                self.head(q),
                self.tail(q),
                #[trigger] self.list(q),
            )
        &&& forall|p: int, q: int, slot: usize|
            #![trigger self.list(p).contains(slot), self.list(q).contains(slot)]
            0 <= p < 96 && 0 <= q < 96 && self.list(p).contains(slot) && self.list(q).contains(slot)
                ==> p == q
    }

    pub open spec fn bare_tasks(self) -> Seq<Tcb> {
        Seq::new(17, |i: int| self.tasks@[i].unlinked())
    }

    pub open spec fn queues(self) -> Seq<Seq<usize>> {
        Seq::new(96, |q: int| self.list(q))
    }

    pub open spec fn counts(self) -> Seq<i32> {
        Seq::new(32, |s: int| self.sems@[s].count)
    }

    pub open spec fn owners(self) -> Seq<usize> {
        Seq::new(32, |x: int| self.mutexes@[x].owner)
    }

    pub open spec fn depths(self) -> Seq<u32> {
        Seq::new(32, |x: int| self.mutexes@[x].depth)
    }
}

/// One queue was rebuilt; every other queue, and everything but links, is as
/// before.
proof fn lemma_one_queue_changed(before: Linkage, after: Linkage, q: int, s: Seq<usize>, touched: Seq<usize>)
    requires
        before.linked(),
        0 <= q < 96,
        links::is_list(links::links_of(after.tasks@), after.head(q), after.tail(q), s),
        links::relinked(before.tasks@, after.tasks@, touched),
        forall|p: int|
            0 <= p < 96 && p != q ==> after.head(p) == #[trigger] before.head(p) && after.tail(p)
                == before.tail(p),
        forall|p: int, slot: usize|
            0 <= p < 96 && p != q && touched.contains(slot) ==> !(#[trigger] before.list(
                p,
            ).contains(slot)),
        forall|slot: usize| s.contains(slot) ==> touched.contains(slot),
    ensures
        after.linked(),
        after.queues() == before.queues().update(q, s),
        after.bare_tasks() == before.bare_tasks(),
{
    assert forall|p: int| 0 <= p < 96 && p != q implies links::is_list(
        links::links_of(after.tasks@),
        after.head(p),
        after.tail(p),
        before.list(p),
    ) && after.list(p) == before.list(p) by {
        let l = before.list(p);
        assert(before.head(p) == after.head(p));
        assert forall|i: int| #![trigger l[i]] 0 <= i < l.len() implies after.tasks@[l[i] as int].next
            == before.tasks@[l[i] as int].next by {
            assert(l.contains(l[i]));
            assert(!touched.contains(l[i]));
            assert(l[i] < links::links_of(before.tasks@).len());
            assert(after.tasks@[l[i] as int] == before.tasks@[l[i] as int]);
        }
        links::lemma_list_untouched(before.tasks@, after.tasks@, after.head(p), after.tail(p), l);
        links::lemma_list_is_chain(after.tasks@, after.head(p), after.tail(p), l);
    }
    links::lemma_list_is_chain(after.tasks@, after.head(q), after.tail(q), s);
    assert(after.list(q) == s);
    assert forall|p: int| 0 <= p < 96 implies links::is_list(
        links::links_of(after.tasks@),
        after.head(p),
        after.tail(p),
        #[trigger] after.list(p),
    ) by {
        if p != q {
            assert(after.list(p) == before.list(p));
        }
    }
    assert forall|a: int, b: int, slot: usize|
        #![trigger after.list(a).contains(slot), after.list(b).contains(slot)]
        0 <= a < 96 && 0 <= b < 96 && after.list(a).contains(slot) && after.list(b).contains(
            slot,
        ) implies a == b by {
        if a != q {
            assert(after.list(a) == before.list(a));
            assert(before.list(a).contains(slot));
        }
        if b != q {
            assert(after.list(b) == before.list(b));
            assert(before.list(b).contains(slot));
        }
    }
    assert(after.queues() =~= before.queues().update(q, s));
    assert(after.bare_tasks() =~= before.bare_tasks());
}

/// Task blocks changed, but no link did.
proof fn lemma_links_unchanged(before: Linkage, after: Linkage)
    requires
        before.linked(),
        links::links_of(after.tasks@) == links::links_of(before.tasks@),
        forall|p: int|
            0 <= p < 96 ==> after.head(p) == #[trigger] before.head(p) && after.tail(p)
                == before.tail(p),
    ensures
        after.linked(),
        after.queues() == before.queues(),
{
    assert forall|p: int| 0 <= p < 96 implies after.list(p) == #[trigger] before.list(p) by {
        assert(before.head(p) == after.head(p));
    }
    assert forall|p: int| 0 <= p < 96 implies links::is_list(
        links::links_of(after.tasks@),
        after.head(p),
        after.tail(p),
        #[trigger] after.list(p),
    ) by {
        assert(after.list(p) == before.list(p));
        assert(before.head(p) == after.head(p));
    }
    assert forall|a: int, b: int, slot: usize|
        #![trigger after.list(a).contains(slot), after.list(b).contains(slot)]
        0 <= a < 96 && 0 <= b < 96 && after.list(a).contains(slot) && after.list(b).contains(
            slot,
        ) implies a == b by {
        assert(after.list(a) == before.list(a));
        assert(after.list(b) == before.list(b));
        assert(before.list(a).contains(slot));
        assert(before.list(b).contains(slot));
    }
    assert(after.queues() =~= before.queues());
}

/// One member left a queue.
pub(crate) proof fn lemma_member_removed(
    before: Linkage,
    after: Linkage,
    q: int,
    task: usize,
)
    requires
        before.linked(),
        0 <= q < 96,
        links::is_list(
            links::links_of(after.tasks@),
            after.head(q),
            after.tail(q),
            links::without(before.list(q), task),
        ),
        links::relinked(before.tasks@, after.tasks@, before.list(q)),
        forall|p: int|
            0 <= p < 96 && p != q ==> after.head(p) == #[trigger] before.head(p) && after.tail(p)
                == before.tail(p),
    ensures
        after.linked(),
        after.queues() == before.queues().update(q, links::without(before.list(q), task)),
        after.bare_tasks() == before.bare_tasks(),
        before.list(q).contains(task) ==> forall|p: int|
            0 <= p < 96 ==> !(#[trigger] after.queues()[p]).contains(task),
{
    let s = before.list(q);
    links::lemma_without(s, task);
    lemma_one_queue_changed(before, after, q, links::without(s, task), s);
    if s.contains(task) {
        assert forall|p: int| 0 <= p < 96 implies !(#[trigger] after.queues()[p]).contains(
            task,
        ) by {
            if p != q {
                assert(after.queues()[p] == before.list(p));
            }
        }
    }
}

/// One member joined a queue by priority.
pub(crate) proof fn lemma_member_enqueued(
    before: Linkage,
    after: Linkage,
    q: int,
    task: usize,
)
    requires
        before.linked(),
        0 <= q < 96,
        task < TASK_SLOT_COUNT,
        forall|p: int| 0 <= p < 96 ==> !(#[trigger] before.queues()[p]).contains(task),
        links::is_list(
            links::links_of(after.tasks@),
            after.head(q),
            after.tail(q),
            links::enqueued(before.tasks@, before.list(q), task),
        ),
        links::relinked(before.tasks@, after.tasks@, before.list(q).push(task)),
        forall|p: int|
            0 <= p < 96 && p != q ==> after.head(p) == #[trigger] before.head(p) && after.tail(p)
                == before.tail(p),
    ensures
        after.linked(),
        after.queues() == before.queues().update(
            q,
            links::enqueued(before.bare_tasks(), before.list(q), task),
        ),
        after.bare_tasks() == before.bare_tasks(),
{
    let s = before.list(q);
    let priority = before.tasks@[task as int].priority;
    assert(before.queues()[q] == s);
    assert forall|i: int| #![trigger s[i]] 0 <= i < s.len() implies before.tasks@[s[i] as int].priority
        == before.bare_tasks()[s[i] as int].priority by {
        assert(s[i] < links::links_of(before.tasks@).len());
    }
    links::lemma_rank_same(before.tasks@, before.bare_tasks(), s, priority);
    links::lemma_rank(before.tasks@, s, priority);
    let t = links::enqueued(before.tasks@, s, task);
    links::lemma_inserted(s, links::rank(before.tasks@, s, priority) as int, task);
    links::lemma_appended(s, task);
    assert forall|p: int, slot: usize|
        0 <= p < 96 && p != q && s.push(task).contains(slot) implies !(#[trigger] before.list(
        p,
    ).contains(slot)) by {
        assert(before.queues()[p] == before.list(p));
        if slot != task {
            assert(before.list(q).contains(slot));
        }
    }
    assert forall|slot: usize| t.contains(slot) implies s.push(task).contains(slot) by {
        assert(slot == task || s.contains(slot));
    }
    lemma_one_queue_changed(before, after, q, t, s.push(task));
}

impl Sched {
    pub open spec fn linkage(self) -> Linkage {
        Linkage {
            tasks: self.tasks,
            ready_head: self.ready_head,
            ready_tail: self.ready_tail,
            sems: self.sems,
            mutexes: self.mutexes,
        }
    }

    pub open spec fn view(self) -> SchedModel {
        SchedModel {
            tasks: self.linkage().bare_tasks(),
            queues: self.linkage().queues(),
            sem_counts: self.linkage().counts(),
            mutex_owner: self.linkage().owners(),
            mutex_depth: self.linkage().depths(),
            current: self.current,
            retired: self.retired_stacks@.take(self.retired_count as int),
            slot_generations: self.slot_generations@,
            time_slice_pending: self.time_slice_pending,
            time_slice_deadline: self.time_slice_deadline,
            pending_switch: self.pending_switch,
            started: self.started,
            diagnostics: self.diagnostics,
            reservations: self.reservations,
            policy: self.policy,
            time_slice: self.time_slice,
        }
    }

    /// The queues are well linked and every index stays inside its table.
    pub open spec fn wf(self) -> bool {
        &&& self.linkage().linked()
        &&& self@.fits()
        &&& self.retired_count <= TASK_SLOT_COUNT
    }

    /// Replaces one task block, keeping its link.
    pub(crate) fn set_task(&mut self, slot: usize, task: Tcb)
        requires
            old(self).linkage().linked(),
            slot < TASK_SLOT_COUNT,
            task.next == old(self).tasks@[slot as int].next,
        ensures
            final(self).linkage().linked(),
            final(self)@ == old(self)@.with_task(slot, task.unlinked()),
            final(self).tasks@ == old(self).tasks@.update(slot as int, task),
            final(self).retired_count == old(self).retired_count,
            final(self).retired_stacks == old(self).retired_stacks,
    {
        let ghost before = self.linkage();
        self.tasks[slot] = task;
        proof {
            let after = self.linkage();
            assert(links::links_of(after.tasks@) =~= links::links_of(before.tasks@));
            lemma_links_unchanged(before, after);
            assert(after.bare_tasks() =~= before.bare_tasks().update(slot as int, task.unlinked()));
        }
    }

    /// The ready queue that serves a task.
    pub fn ready_priority(&self, task: usize) -> (r: usize)
        requires
            self.wf(),
            task < TASK_SLOT_COUNT,
        ensures
            r == self@.ready_key(task),
            r < PRIORITY_LEVELS,
    {
        assert(self@.tasks[task as int].priority < 32);
        match self.policy {
            Some(SchedulingPolicy::Cooperative) => 0,
            _ => self.tasks[task].priority as usize,
        }
    }

    /// Queues a task at the tail of its ready level.
    pub fn ready_push(&mut self, i: usize)
        requires
            old(self).wf(),
            i < TASK_SLOT_COUNT,
            old(self)@.loose(i),
        ensures
            final(self).wf(),
            final(self)@ == old(self)@.pushed(i),
    {
        let priority: usize = self.ready_priority(i);
        let ghost before = self.linkage();
        let ghost s = before.list(priority as int);
        assert(self@.queues[priority as int] == s);
        let (head, tail) = links::append(
            &mut self.tasks,
            self.ready_head[priority],
            self.ready_tail[priority],
            i,
        );
        self.ready_head[priority] = head;
        self.ready_tail[priority] = tail;
        proof {
            let after = self.linkage();
            links::lemma_appended(s, i);
            assert forall|p: int, slot: usize|
                0 <= p < 96 && p != priority && s.push(i).contains(slot) implies !(
            #[trigger] before.list(p).contains(slot)) by {
                assert(old(self)@.queues[p] == before.list(p));
                if slot != i {
                    assert(before.list(priority as int).contains(slot));
                }
            }
            lemma_one_queue_changed(before, after, priority as int, s.push(i), s.push(i));
            assert(self@ =~= old(self)@.pushed(i));
        }
    }

    /// Whether ready level `level` holds a task.
    pub(crate) fn level_occupied(&self, level: usize) -> (r: bool)
        requires
            self.linkage().linked(),
            level < PRIORITY_LEVELS,
        ensures
            r == (self@.queues[level as int].len() > 0),
            r ==> self.ready_head@[level as int] < TASK_SLOT_COUNT,
    {
        proof {
            let s = self.linkage().list(level as int);
            assert(self@.queues[level as int] == s);
            if s.len() > 0 {
                assert(s[0] < links::links_of(self.tasks@).len());
            }
        }
        self.ready_head[level] != NIL
    }

    /// The longest-waiting task of the best ready level, or `NIL`.
    pub(crate) fn next_ready(&self) -> (r: usize)
        requires
            self.wf(),
        ensures
            r == self@.pop_slot(),
            r == NIL || r < TASK_SLOT_COUNT,
    {
        let mut priority: usize = 0;
        while priority < PRIORITY_LEVELS
            invariant
                self.wf(),
                priority <= 32,
                self@.first_ready() == self@.first_ready_from(priority as int),
            decreases 32 - priority,
        {
            if self.level_occupied(priority) {
                assert(self@.queues[priority as int] == self.linkage().list(priority as int));
                return self.ready_head[priority];
            }
            priority = priority + 1;
        }
        NIL
    }

    /// Takes the longest-waiting task of the best ready level, or `NIL`.
    pub fn ready_pop(&mut self) -> (r: usize)
        requires
            old(self).wf(),
        ensures
            final(self).wf(),
            r == old(self)@.pop_slot(),
            final(self)@ == old(self)@.popped(),
            r == NIL || r < TASK_SLOT_COUNT,
            r != NIL ==> old(self)@.first_ready() is Some && 0 <= old(self)@.first_ready()->0
                < 32 && final(self)@.loose(r),
            r == NIL ==> old(self)@.first_ready() is None,
    {
        let ghost before = self.linkage();
        let mut priority: usize = 0;
        while priority < PRIORITY_LEVELS
            invariant
                self.wf(),
                *self == *old(self),
                before == self.linkage(),
                priority <= 32,
                self@.first_ready() == self@.first_ready_from(priority as int),
            decreases 32 - priority,
        {
            if self.level_occupied(priority) {
                let ghost s = before.list(priority as int);
                assert(self@.queues[priority as int] == s);
                let i: usize = self.ready_head[priority];
                let (head, tail) = links::take_first(
                    &mut self.tasks,
                    self.ready_head[priority],
                    self.ready_tail[priority],
                );
                self.ready_head[priority] = head;
                self.ready_tail[priority] = tail;
                proof {
                    let after = self.linkage();
                    links::lemma_drop_first(s);
                    assert forall|p: int, slot: usize|
                        0 <= p < 96 && p != priority && s.contains(slot) implies !(
                    #[trigger] before.list(p).contains(slot)) by {
                        assert(before.list(priority as int).contains(slot));
                    }
                    assert forall|slot: usize| s.drop_first().contains(slot) implies s.contains(
                        slot,
                    ) by {}
                    lemma_one_queue_changed(before, after, priority as int, s.drop_first(), s);
                    assert(self@ =~= old(self)@.popped());
                    assert(s.contains(i));
                    assert forall|q: int| 0 <= q < 96 implies !(
                    #[trigger] self@.queues[q]).contains(i) by {
                        if q != priority {
                            assert(self@.queues[q] == before.list(q));
                            assert(before.list(priority as int).contains(i));
                        }
                    }
                }
                return i;
            }
            priority = priority + 1;
        }
        NIL
    }

    /// Takes the next ready task, falling back to the idle thread.
    ///
    /// Under a firmware-wide policy there is no idle thread and the fallback is
    /// `NIL`.
    pub fn ready_pop_or_idle(&mut self) -> (r: usize)
        requires
            old(self).wf(),
        ensures
            final(self).wf(),
            r == old(self)@.pop_or_idle_slot(),
            final(self)@ == old(self)@.popped(),
            r == NIL || r < TASK_SLOT_COUNT,
            old(self)@.policy is None ==> r != NIL,
    {
        let next: usize = self.ready_pop();
        if next == NIL && self.policy.is_none() {
            IDLE_SLOT
        } else {
            next
        }
    }

    /// Takes a task out of its ready level and tells whether it was there.
    pub fn ready_remove(&mut self, task: usize) -> (r: bool)
        requires
            old(self).wf(),
            task < TASK_SLOT_COUNT,
        ensures
            final(self).wf(),
            r == old(self)@.ready_queued(task),
            final(self)@ == old(self)@.ready_removed(task),
            final(self).tasks@[task as int].unlinked() == old(self).tasks@[task as int].unlinked(),
            r ==> final(self)@.loose(task),
    {
        let priority: usize = self.ready_priority(task);
        let ghost before = self.linkage();
        let ghost s = before.list(priority as int);
        assert(self@.queues[priority as int] == s);
        let (head, tail, found) = links::remove(
            &mut self.tasks,
            self.ready_head[priority],
            self.ready_tail[priority],
            task,
        );
        self.ready_head[priority] = head;
        self.ready_tail[priority] = tail;
        proof {
            lemma_member_removed(before, self.linkage(), priority as int, task);
            assert(self@ =~= old(self)@.ready_removed(task));
        }
        found
    }

    /// Whether `slot` is the idle thread.
    pub fn is_idle_slot(&self, slot: usize) -> (r: bool)
        ensures
            r == self@.is_idle(slot),
    {
        self.policy.is_none() && slot == IDLE_SLOT
    }

    /// Makes a task ready, queueing it unless it is the idle thread.
    pub fn make_ready(&mut self, slot: usize, now: u64)
        requires
            old(self).wf(),
            slot < TASK_SLOT_COUNT,
            old(self)@.loose(slot) || old(self)@.is_idle(slot),
        ensures
            final(self).wf(),
            final(self)@ == old(self)@.made_ready(slot, now),
    {
        assert(self@.tasks[slot as int].priority < 32);
        let mut task = self.tasks[slot];
        task.state = State::Ready;
        task.metrics.on_ready(now);
        self.set_task(slot, task);
        if !self.is_idle_slot(slot) {
            self.ready_push(slot);
        }
        assert(self@ =~= old(self)@.made_ready(slot, now));
    }

    // ---- Wait objects ------------------------------------------------------
    /// Sets the count of a semaphore.
    pub(crate) fn set_sem_count(&mut self, sem: usize, count: i32)
        requires
            old(self).wf(),
            sem < 32,
        ensures
            final(self).wf(),
            final(self)@ == (SchedModel {
                sem_counts: old(self)@.sem_counts.update(sem as int, count),
                ..old(self)@
            }),
    {
        let ghost before = self.linkage();
        self.sems[sem].count = count;
        proof {
            let after = self.linkage();
            lemma_links_unchanged(before, after);
            assert(after.counts() =~= before.counts().update(sem as int, count));
        }
    }

    /// Sets the owner and the recursion depth of a mutex.
    pub(crate) fn set_mutex(&mut self, mutex: usize, owner: usize, depth: u32)
        requires
            old(self).wf(),
            mutex < 32,
            owner == NIL || owner < TASK_SLOT_COUNT,
        ensures
            final(self).wf(),
            final(self)@ == old(self)@.with_mutex(mutex as int, owner, depth),
    {
        let ghost before = self.linkage();
        self.mutexes[mutex].owner = owner;
        self.mutexes[mutex].depth = depth;
        proof {
            let after = self.linkage();
            lemma_links_unchanged(before, after);
            assert(after.owners() =~= before.owners().update(mutex as int, owner));
            assert(after.depths() =~= before.depths().update(mutex as int, depth));
            assert(self@ =~= old(self)@.with_mutex(mutex as int, owner, depth));
            assert forall|x: int| 0 <= x < 32 implies #[trigger] self@.mutex_owner[x] == NIL
                || self@.mutex_owner[x] < TASK_SLOT_COUNT by {
                assert(old(self)@.mutex_owner[x] == NIL || old(self)@.mutex_owner[x]
                    < TASK_SLOT_COUNT);
            }
        }
    }

    /// Takes the first waiter of a semaphore.
    pub(crate) fn take_sem_waiter(&mut self, sem: usize) -> (r: usize)
        requires
            old(self).wf(),
            sem < 32,
        ensures
            final(self).wf(),
            old(self)@.sem_waiters(sem as int).len() == 0 ==> r == NIL && final(self)@
                == old(self)@,
            old(self)@.sem_waiters(sem as int).len() > 0 ==> {
                &&& r == old(self)@.sem_waiters(sem as int)[0]
                &&& r < TASK_SLOT_COUNT
                &&& final(self)@ == old(self)@.dequeued(32 + sem as int, r)
            },
    {
        let ghost before = self.linkage();
        let ghost q = 32 + sem as int;
        let ghost s = before.list(q);
        assert(self@.queues[q] == s);
        let waiter: usize = self.sems[sem].wait_head;
        if waiter == NIL {
            proof {
                if s.len() > 0 {
                    assert(s[0] < links::links_of(before.tasks@).len());
                }
            }
            return NIL;
        }
        let (head, tail) = links::take_first(
            &mut self.tasks,
            self.sems[sem].wait_head,
            self.sems[sem].wait_tail,
        );
        self.sems[sem].wait_head = head;
        self.sems[sem].wait_tail = tail;
        proof {
            assert(s[0] < links::links_of(before.tasks@).len());
            links::lemma_drop_first(s);
            lemma_member_removed(before, self.linkage(), q, waiter);
            assert(self.linkage().counts() =~= before.counts());
            assert(self@ =~= old(self)@.dequeued(q, waiter));
        }
        waiter
    }

    /// Takes the first waiter of a mutex.
    pub(crate) fn pop_mutex_waiter(&mut self, mutex: usize) -> (r: usize)
        requires
            old(self).wf(),
            mutex < 32,
        ensures
            final(self).wf(),
            old(self)@.mutex_waiters(mutex as int).len() == 0 ==> r == NIL && final(self)@
                == old(self)@,
            old(self)@.mutex_waiters(mutex as int).len() > 0 ==> {
                &&& r == old(self)@.mutex_waiters(mutex as int)[0]
                &&& r < TASK_SLOT_COUNT
                &&& final(self)@ == old(self)@.dequeued(64 + mutex as int, r)
            },
    {
        let ghost before = self.linkage();
        let ghost q = 64 + mutex as int;
        let ghost s = before.list(q);
        assert(self@.queues[q] == s);
        let waiter: usize = self.mutexes[mutex].wait_head;
        if waiter == NIL {
            proof {
                if s.len() > 0 {
                    assert(s[0] < links::links_of(before.tasks@).len());
                }
            }
            return NIL;
        }
        let (head, tail) = links::take_first(
            &mut self.tasks,
            self.mutexes[mutex].wait_head,
            self.mutexes[mutex].wait_tail,
        );
        self.mutexes[mutex].wait_head = head;
        self.mutexes[mutex].wait_tail = tail;
        proof {
            assert(s[0] < links::links_of(before.tasks@).len());
            links::lemma_drop_first(s);
            lemma_member_removed(before, self.linkage(), q, waiter);
            assert(self.linkage().owners() =~= before.owners());
            assert(self.linkage().depths() =~= before.depths());
            assert(self@ =~= old(self)@.dequeued(q, waiter));
        }
        waiter
    }

    // ---- Wait queues -------------------------------------------------------
    /// Queues a task on a semaphore by priority.
    pub fn enqueue_waiter(&mut self, sem: usize, task: usize)
        requires
            old(self).wf(),
            sem < 32,
            task < TASK_SLOT_COUNT,
            old(self)@.loose(task),
        ensures
            final(self).wf(),
            final(self)@ == old(self)@.enqueued(32 + sem, task),
            final(self).tasks@[task as int].unlinked() == old(self).tasks@[task as int].unlinked(),
    {
        let ghost before = self.linkage();
        let ghost q = 32 + sem as int;
        let ghost s = before.list(q);
        assert(self@.queues[q] == s);
        let (head, tail) = links::enqueue(
            &mut self.tasks,
            self.sems[sem].wait_head,
            self.sems[sem].wait_tail,
            task,
        );
        self.sems[sem].wait_head = head;
        self.sems[sem].wait_tail = tail;
        proof {
            lemma_member_enqueued(before, self.linkage(), q, task);
            assert(self.linkage().counts() =~= before.counts());
            assert(self@ =~= old(self)@.enqueued(q, task));
        }
    }

    /// Takes a task out of the waiters of a semaphore.
    pub fn remove_waiter(&mut self, sem: usize, task: usize)
        requires
            old(self).wf(),
            sem < 32,
            task < TASK_SLOT_COUNT,
        ensures
            final(self).wf(),
            final(self)@ == old(self)@.dequeued(32 + sem, task),
            final(self).tasks@[task as int].unlinked() == old(self).tasks@[task as int].unlinked(),
    {
        let ghost before = self.linkage();
        let ghost q = 32 + sem as int;
        let ghost s = before.list(q);
        assert(self@.queues[q] == s);
        let (head, tail, _found) = links::remove(
            &mut self.tasks,
            self.sems[sem].wait_head,
            self.sems[sem].wait_tail,
            task,
        );
        self.sems[sem].wait_head = head;
        self.sems[sem].wait_tail = tail;
        proof {
            lemma_member_removed(before, self.linkage(), q, task);
            assert(self.linkage().counts() =~= before.counts());
            assert(self@ =~= old(self)@.dequeued(q, task));
        }
    }

    /// Queues a task on a mutex by priority.
    pub fn enqueue_mutex_waiter(&mut self, mutex: usize, task: usize)
        requires
            old(self).wf(),
            mutex < 32,
            task < TASK_SLOT_COUNT,
            old(self)@.loose(task),
        ensures
            final(self).wf(),
            final(self)@ == old(self)@.enqueued(64 + mutex, task),
            final(self).tasks@[task as int].unlinked() == old(self).tasks@[task as int].unlinked(),
    {
        let ghost before = self.linkage();
        let ghost q = 64 + mutex as int;
        let ghost s = before.list(q);
        assert(self@.queues[q] == s);
        let (head, tail) = links::enqueue(
            &mut self.tasks,
            self.mutexes[mutex].wait_head,
            self.mutexes[mutex].wait_tail,
            task,
        );
        self.mutexes[mutex].wait_head = head;
        self.mutexes[mutex].wait_tail = tail;
        proof {
            lemma_member_enqueued(before, self.linkage(), q, task);
            assert(self.linkage().owners() =~= before.owners());
            assert(self.linkage().depths() =~= before.depths());
            assert(self@ =~= old(self)@.enqueued(q, task));
        }
    }

    /// Takes a task out of the waiters of a mutex.
    pub fn remove_mutex_waiter(&mut self, mutex: usize, task: usize)
        requires
            old(self).wf(),
            mutex < 32,
            task < TASK_SLOT_COUNT,
        ensures
            final(self).wf(),
            final(self)@ == old(self)@.dequeued(64 + mutex, task),
            final(self).tasks@[task as int].unlinked() == old(self).tasks@[task as int].unlinked(),
    {
        let ghost before = self.linkage();
        let ghost q = 64 + mutex as int;
        let ghost s = before.list(q);
        assert(self@.queues[q] == s);
        let (head, tail, _found) = links::remove(
            &mut self.tasks,
            self.mutexes[mutex].wait_head,
            self.mutexes[mutex].wait_tail,
            task,
        );
        self.mutexes[mutex].wait_head = head;
        self.mutexes[mutex].wait_tail = tail;
        proof {
            lemma_member_removed(before, self.linkage(), q, task);
            assert(self.linkage().owners() =~= before.owners());
            assert(self.linkage().depths() =~= before.depths());
            assert(self@ =~= old(self)@.dequeued(q, task));
        }
    }
}

} // verus!
