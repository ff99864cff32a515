//! Admission of task resources: stacks first, then slots, all or nothing.
use vstd::prelude::*;
use crate::admission::{
    TaskReservationBatch, TaskResourceGroupRequirements, TaskResourcePlan,
    TaskResourceRequirements, TASK_RESOURCE_GROUP_CAPACITY,
};
use crate::config::DYNAMIC_TASK_CAPACITY;
use crate::error::{TaskAdmissionError, TaskReservation};
use crate::model::SchedModel;
use crate::reservation;
use crate::reservation::ReservationTable;
use crate::scheduler::Sched;

verus! {

// ---- Reserving the groups of a plan ---------------------------------------
impl ReservationTable {
    /// The same reservations are outstanding: live entries are equal, and so is the
    /// total. Only the generations of vacant entries may have moved on.
    pub open spec fn promises_like(self, other: ReservationTable) -> bool {
        &&& self.total_remaining == other.total_remaining
        &&& forall|i: int|
            0 <= i < 4 ==> (#[trigger] self.entries@[i]).active == other.entries@[i].active
                && (self.entries@[i].active ==> self.entries@[i] == other.entries@[i])
    }

    proof fn lemma_still_resolved(self, other: ReservationTable, reservation: TaskReservation)
        requires
            self.resolved(reservation) is Some,
            other.entries@[self.resolved(reservation)->0]
                == self.entries@[self.resolved(reservation)->0],
        ensures
            other.resolved(reservation) == self.resolved(reservation),
    {
    }
}

impl SchedModel {
    /// Why group `i` of a plan cannot be reserved.
    pub open spec fn group_refusal(
        self,
        groups: Seq<TaskResourceGroupRequirements>,
        capacity: usize,
        i: int,
    ) -> Option<TaskAdmissionError> {
        match self.reservations.refusal(
            groups[i].resources.slots(),
            self.dynamic_available(capacity),
        ) {
            Some(TaskAdmissionError::InsufficientTaskSlots { required, available }) => Some(
                TaskAdmissionError::InsufficientTaskGroupSlots {
                    owner: groups[i].owner,
                    required,
                    available,
                },
            ),
            other => other,
        }
    }

    /// The scheduler after the first `n` groups were reserved with their stacks.
    pub open spec fn plan_reserved(
        self,
        groups: Seq<TaskResourceGroupRequirements>,
        stacks: [[usize; 15]; 8],
        n: int,
    ) -> SchedModel
        decreases n,
    {
        if n <= 0 {
            self
        } else {
            let before = self.plan_reserved(groups, stacks, n - 1);
            before.with_reservations(
                before.reservations.reserved_with(
                    groups[n - 1].resources.slots() as u8,
                    groups[n - 1].resources.bytes(),
                    stacks@[n - 1],
                ),
            )
        }
    }

    /// The entry that group `i` is given.
    pub open spec fn group_entry(
        self,
        groups: Seq<TaskResourceGroupRequirements>,
        stacks: [[usize; 15]; 8],
        i: int,
    ) -> Option<int> {
        self.plan_reserved(groups, stacks, i).reservations.vacancy()
    }

    /// The first of the first `n` groups that is refused, and why.
    pub open spec fn plan_failure(
        self,
        groups: Seq<TaskResourceGroupRequirements>,
        stacks: [[usize; 15]; 8],
        capacity: usize,
        n: int,
    ) -> Option<(int, TaskAdmissionError)>
        decreases n,
    {
        if n <= 0 {
            None
        } else {
            match self.plan_failure(groups, stacks, capacity, n - 1) {
                Some(failure) => Some(failure),
                None => match self.plan_reserved(groups, stacks, n - 1).group_refusal(
                    groups,
                    capacity,
                    n - 1,
                ) {
                    Some(error) => Some((n - 1, error)),
                    None => None,
                },
            }
        }
    }

    /// The scheduler after `n` groups were reserved and the first `k` of them were
    /// released again.
    pub open spec fn plan_unwound(
        self,
        groups: Seq<TaskResourceGroupRequirements>,
        stacks: [[usize; 15]; 8],
        n: int,
        k: int,
    ) -> SchedModel
        decreases k,
    {
        if k <= 0 {
            self.plan_reserved(groups, stacks, n)
        } else {
            let before = self.plan_unwound(groups, stacks, n, k - 1);
            before.with_reservations(
                before.reservations.released(self.group_entry(groups, stacks, k - 1)->0),
            )
        }
    }

    /// Group `j` keeps its entry while later groups are reserved.
    proof fn lemma_entry_kept(
        self,
        groups: Seq<TaskResourceGroupRequirements>,
        stacks: [[usize; 15]; 8],
        capacity: usize,
        n: int,
        j: int,
    )
        requires
            0 <= j < n,
            self.plan_failure(groups, stacks, capacity, n) is None,
        ensures
            self.group_entry(groups, stacks, j) is Some,
            0 <= self.group_entry(groups, stacks, j)->0 < 4,
            self.plan_reserved(groups, stacks, n).reservations.entries@[self.group_entry(
                groups,
                stacks,
                j,
            )->0].active,
            self.plan_reserved(groups, stacks, n).reservations.entries@[self.group_entry(
                groups,
                stacks,
                j,
            )->0] == self.plan_reserved(groups, stacks, j + 1).reservations.entries@[
                self.group_entry(groups, stacks, j)->0],
        decreases n,
    {
        let before = self.plan_reserved(groups, stacks, n - 1);
        assert(before.group_refusal(groups, capacity, n - 1) is None);
        assert(before.reservations.vacancy() is Some);
        if j < n - 1 {
            self.lemma_entry_kept(groups, stacks, capacity, n - 1, j);
        }
    }

    /// Entries that no group was given are untouched.
    proof fn lemma_entry_untouched(
        self,
        groups: Seq<TaskResourceGroupRequirements>,
        stacks: [[usize; 15]; 8],
        capacity: usize,
        n: int,
        e: int,
    )
        requires
            0 <= n,
            0 <= e < 4,
            self.plan_failure(groups, stacks, capacity, n) is None,
            forall|j: int| 0 <= j < n ==> self.group_entry(groups, stacks, j) != Some(e),
        ensures
            self.plan_reserved(groups, stacks, n).reservations.entries@[e]
                == self.reservations.entries@[e],
        decreases n,
    {
        if n > 0 {
            self.lemma_entry_untouched(groups, stacks, capacity, n - 1, e);
            let before = self.plan_reserved(groups, stacks, n - 1);
            assert(before.group_refusal(groups, capacity, n - 1) is None);
            assert(self.group_entry(groups, stacks, n - 1) != Some(e));
        }
    }

    /// An entry that a group was given was vacant before the plan.
    proof fn lemma_entry_was_vacant(
        self,
        groups: Seq<TaskResourceGroupRequirements>,
        stacks: [[usize; 15]; 8],
        capacity: usize,
        n: int,
        j: int,
    )
        requires
            0 <= j < n,
            self.plan_failure(groups, stacks, capacity, n) is None,
        ensures
            self.group_entry(groups, stacks, j) is Some,
            !self.reservations.entries@[self.group_entry(groups, stacks, j)->0].active,
            forall|i: int|
                0 <= i < j ==> #[trigger] self.group_entry(groups, stacks, i) != self.group_entry(
                    groups,
                    stacks,
                    j,
                ),
        decreases n,
    {
        if j < n - 1 {
            self.lemma_entry_was_vacant(groups, stacks, capacity, n - 1, j);
        } else {
            self.lemma_entry_kept(groups, stacks, capacity, n, j);
            let e = self.group_entry(groups, stacks, j)->0;
            assert forall|i: int| 0 <= i < j implies #[trigger] self.group_entry(groups, stacks, i)
                != self.group_entry(groups, stacks, j) by {
                self.lemma_entry_kept(groups, stacks, capacity, j, i);
            }
            assert forall|i: int| 0 <= i < j implies self.group_entry(groups, stacks, i) != Some(
                e,
            ) by {
                assert(self.group_entry(groups, stacks, i) != self.group_entry(groups, stacks, j));
            }
            self.lemma_entry_untouched(groups, stacks, capacity, j, e);
        }
    }

    /// While the first `k` groups are released, the others keep their entries and the
    /// released ones become vacant.
    proof fn lemma_unwound(
        self,
        groups: Seq<TaskResourceGroupRequirements>,
        stacks: [[usize; 15]; 8],
        capacity: usize,
        n: int,
        k: int,
        e: int,
    )
        requires
            0 <= k <= n,
            0 <= e < 4,
            self.plan_failure(groups, stacks, capacity, n) is None,
        ensures
            (forall|j: int| 0 <= j < k ==> self.group_entry(groups, stacks, j) != Some(e))
                ==> self.plan_unwound(groups, stacks, n, k).reservations.entries@[e]
                == self.plan_reserved(groups, stacks, n).reservations.entries@[e],
            (exists|j: int| 0 <= j < k && self.group_entry(groups, stacks, j) == Some(e))
                ==> !self.plan_unwound(groups, stacks, n, k).reservations.entries@[e].active,
        decreases k,
    {
        if k > 0 {
            self.lemma_unwound(groups, stacks, capacity, n, k - 1, e);
            self.lemma_entry_kept(groups, stacks, capacity, n, k - 1);
            if forall|j: int| 0 <= j < k ==> self.group_entry(groups, stacks, j) != Some(e) {
                assert(self.group_entry(groups, stacks, k - 1) != Some(e));
            }
            if exists|j: int| 0 <= j < k && self.group_entry(groups, stacks, j) == Some(e) {
                let j = choose|j: int|
                    0 <= j < k && self.group_entry(groups, stacks, j) == Some(e);
                if j < k - 1 {
                    assert(0 <= j < k - 1 && self.group_entry(groups, stacks, j) == Some(e));
                }
            }
        }
    }

    /// Once every group of a failed plan is released, what was promised before is
    /// promised again and nothing else is.
    pub proof fn law_failed_plan_leaves_no_reservation(
        self,
        groups: Seq<TaskResourceGroupRequirements>,
        stacks: [[usize; 15]; 8],
        capacity: usize,
        n: int,
    )
        requires
            0 <= n,
            self.reservations.wf(),
            self.plan_unwound(groups, stacks, n, n).reservations.wf(),
            self.plan_failure(groups, stacks, capacity, n) is None,
        ensures
            self.plan_unwound(groups, stacks, n, n).reservations.promises_like(self.reservations),
    {
        let after = self.plan_unwound(groups, stacks, n, n).reservations;
        let before = self.reservations;
        assert forall|e: int| 0 <= e < 4 implies (#[trigger] after.entries@[e]).active
            == before.entries@[e].active && (after.entries@[e].active ==> after.entries@[e]
            == before.entries@[e]) && after.entries@[e].remaining == before.entries@[e].remaining by {
            self.lemma_unwound(groups, stacks, capacity, n, n, e);
            assert(before.entries@[e].wf());
            assert(after.entries@[e].wf());
            if exists|j: int| 0 <= j < n && self.group_entry(groups, stacks, j) == Some(e) {
                let j = choose|j: int|
                    0 <= j < n && self.group_entry(groups, stacks, j) == Some(e);
                self.lemma_entry_was_vacant(groups, stacks, capacity, n, j);
            } else {
                self.lemma_entry_untouched(groups, stacks, capacity, n, e);
            }
        }
        assert(after.entries@[0].remaining == before.entries@[0].remaining);
        assert(after.entries@[1].remaining == before.entries@[1].remaining);
        assert(after.entries@[2].remaining == before.entries@[2].remaining);
        assert(after.entries@[3].remaining == before.entries@[3].remaining);
    }

    /// Reserving groups changes reservations only.
    pub(crate) proof fn lemma_plan_frame(
        self,
        groups: Seq<TaskResourceGroupRequirements>,
        stacks: [[usize; 15]; 8],
        n: int,
    )
        ensures
            self.plan_reserved(groups, stacks, n) == self.with_reservations(
                self.plan_reserved(groups, stacks, n).reservations,
            ),
        decreases n,
    {
        if n > 0 {
            self.lemma_plan_frame(groups, stacks, n - 1);
        }
    }

    /// Releasing groups again changes reservations only.
    pub(crate) proof fn lemma_unwound_frame(
        self,
        groups: Seq<TaskResourceGroupRequirements>,
        stacks: [[usize; 15]; 8],
        n: int,
        k: int,
    )
        ensures
            self.plan_unwound(groups, stacks, n, k) == self.with_reservations(
                self.plan_unwound(groups, stacks, n, k).reservations,
            ),
        decreases k,
    {
        if k > 0 {
            self.lemma_unwound_frame(groups, stacks, n, k - 1);
        } else {
            self.lemma_plan_frame(groups, stacks, n);
        }
    }

    proof fn lemma_failure_monotone(
        self,
        groups: Seq<TaskResourceGroupRequirements>,
        stacks: [[usize; 15]; 8],
        capacity: usize,
        n: int,
        more: int,
    )
        requires
            n <= more,
            self.plan_failure(groups, stacks, capacity, n) is Some,
        ensures
            self.plan_failure(groups, stacks, capacity, more) == self.plan_failure(
                groups,
                stacks,
                capacity,
                n,
            ),
        decreases more,
    {
        if n < more {
            self.lemma_failure_monotone(groups, stacks, capacity, n, more - 1);
            if more <= 0 {
                assert(false);
            }
        }
    }
}

impl Sched {
    /// Sets aside dynamic slots together with their stacks.
    pub fn reserve_dynamic_task_resources(
        &mut self,
        required: TaskResourceRequirements,
        stacks: [usize; 15],
    ) -> (r: Result<TaskReservation, TaskAdmissionError>)
        requires
            old(self).wf(),
            old(self).reservations.wf(),
        ensures
            final(self).wf(),
            final(self).reservations.wf(),
            old(self)@.admits(
                *final(self),
                required.slots(),
                DYNAMIC_TASK_CAPACITY,
                Some((required.bytes(), stacks)),
                r,
            ),
    {
        self.reserve_dynamic_task_resources_with_capacity(required, stacks, DYNAMIC_TASK_CAPACITY)
    }

    /// Sets aside dynamic slots out of `capacity`, together with their stacks.
    pub fn reserve_dynamic_task_resources_with_capacity(
        &mut self,
        required: TaskResourceRequirements,
        stacks: [usize; 15],
        capacity: usize,
    ) -> (r: Result<TaskReservation, TaskAdmissionError>)
        requires
            old(self).wf(),
            old(self).reservations.wf(),
            capacity <= DYNAMIC_TASK_CAPACITY,
        ensures
            final(self).wf(),
            final(self).reservations.wf(),
            old(self)@.admits(
                *final(self),
                required.slots(),
                capacity,
                Some((required.bytes(), stacks)),
                r,
            ),
    {
        self.reserve_dynamic_stacks_with_capacity(
            required.task_slots(),
            required.stack_bytes_per_task(),
            stacks,
            capacity,
        )
    }

    /// Reserves every group of a plan in order, or none of them.
    pub fn reserve_dynamic_task_resource_plan_with_capacity(
        &mut self,
        plan: TaskResourcePlan<'_>,
        stacks: [[usize; 15]; 8],
        capacity: usize,
    ) -> (r: Result<TaskReservationBatch, TaskAdmissionError>)
        requires
            old(self).wf(),
            old(self).reservations.wf(),
            capacity <= DYNAMIC_TASK_CAPACITY,
        ensures
            final(self).wf(),
            final(self).reservations.wf(),
            match old(self)@.plan_failure(plan@, stacks, capacity, plan@.len() as int) {
                Some((failed, error)) => {
                    &&& r == Err::<TaskReservationBatch, _>(error)
                    &&& final(self)@ == old(self)@.plan_unwound(plan@, stacks, failed, failed)
                    &&& final(self).reservations.promises_like(old(self).reservations)
                },
                None => {
                    &&& r is Ok
                    &&& final(self)@ == old(self)@.plan_reserved(plan@, stacks, plan@.len() as int)
                    &&& r->Ok_0.len == plan@.len()
                    &&& old(self)@.batch_of(
                        plan@,
                        stacks,
                        r->Ok_0.reservations,
                        final(self).reservations,
                        plan@.len() as int,
                    )
                },
            },
    {
        let ghost m0 = self@;
        let groups = plan.groups();
        let count: usize = groups.len();
        let mut tokens: [Option<TaskReservation>; 8] = [None;8];
        let mut index: usize = 0;
        while index < count
            invariant
                index <= count == groups@.len() <= TASK_RESOURCE_GROUP_CAPACITY,
                plan@ == groups@,
                capacity <= DYNAMIC_TASK_CAPACITY,
                self.wf(),
                self.reservations.wf(),
                m0.reservations.wf(),
                m0 == old(self)@,
                self@ == m0.plan_reserved(groups@, stacks, index as int),
                m0.plan_failure(groups@, stacks, capacity, index as int) is None,
                m0.batch_of(groups@, stacks, tokens, self.reservations, index as int),
            decreases count - index,
        {
            let group = groups[index];
            let ghost before = self@;
            let ghost before_tokens = tokens;
            let attempt = self.reserve_dynamic_task_resources_with_capacity(
                group.resources(),
                stacks[index],
                capacity,
            );
            match attempt {
                Ok(token) => {
                    tokens[index] = Some(token);
                    proof {
                        let n = index + 1;
                        assert(m0.plan_failure(groups@, stacks, capacity, n) is None);
                        assert(self@ == m0.plan_reserved(groups@, stacks, n));
                        assert forall|j: int| 0 <= j < n implies {
                            &&& (#[trigger] tokens@[j]) is Some
                            &&& self.reservations.resolved(tokens@[j]->0) == m0.group_entry(
                                groups@,
                                stacks,
                                j,
                            )
                            &&& tokens@[j]->0.raw@ == m0.group_token(groups@, stacks, j)
                        } by {
                            if j < index {
                                assert(tokens@[j] == before_tokens@[j]);
                                m0.lemma_entry_kept(groups@, stacks, capacity, index as int, j);
                                m0.lemma_entry_kept(groups@, stacks, capacity, n, j);
                                before.reservations.lemma_still_resolved(
                                    self.reservations,
                                    tokens@[j]->0,
                                );
                            }
                        }
                    }
                },
                Err(error) => {
                    proof {
                        assert(m0.plan_failure(groups@, stacks, capacity, index + 1) is Some);
                        m0.lemma_failure_monotone(
                            groups@,
                            stacks,
                            capacity,
                            index + 1,
                            count as int,
                        );
                        assert(self@ == m0.plan_unwound(groups@, stacks, index as int, 0));
                    }
                    self.unwind(Ghost(m0), Ghost(groups@), Ghost(stacks), Ghost(capacity), tokens, index);
                    return Err(
                        match error {
                            TaskAdmissionError::InsufficientTaskSlots { required, available } => {
                                TaskAdmissionError::InsufficientTaskGroupSlots {
                                    owner: group.owner(),
                                    required,
                                    available,
                                }
                            },
                            other => other,
                        },
                    );
                },
            }
            index = index + 1;
        }
        Ok(TaskReservationBatch { reservations: tokens, len: count })
    }

    /// Releases the first `count` reservations of a plan that could not be admitted.
    fn unwind(
        &mut self,
        m0: Ghost<SchedModel>,
        groups: Ghost<Seq<TaskResourceGroupRequirements>>,
        stacks: Ghost<[[usize; 15]; 8]>,
        capacity: Ghost<usize>,
        tokens: [Option<TaskReservation>; 8],
        count: usize,
    )
        requires
            count <= TASK_RESOURCE_GROUP_CAPACITY,
            old(self).wf(),
            old(self).reservations.wf(),
            m0@.reservations.wf(),
            old(self)@ == m0@.plan_reserved(groups@, stacks@, count as int),
            m0@.plan_failure(groups@, stacks@, capacity@, count as int) is None,
            m0@.batch_of(groups@, stacks@, tokens, old(self).reservations, count as int),
        ensures
            final(self).wf(),
            final(self).reservations.wf(),
            final(self)@ == m0@.plan_unwound(groups@, stacks@, count as int, count as int),
            final(self).reservations.promises_like(m0@.reservations),
    {
        let ghost all = self.reservations;
        let mut index: usize = 0;
        while index < count
            invariant
                index <= count <= TASK_RESOURCE_GROUP_CAPACITY,
                self.wf(),
                self.reservations.wf(),
                self@ == m0@.plan_unwound(groups@, stacks@, count as int, index as int),
                all == m0@.plan_reserved(groups@, stacks@, count as int).reservations,
                m0@.plan_failure(groups@, stacks@, capacity@, count as int) is None,
                m0@.batch_of(groups@, stacks@, tokens, all, count as int),
            decreases count - index,
        {
            assert(tokens@[index as int] is Some);
            match tokens[index] {
                Some(token) => {
                    proof {
                        let j = index as int;
                        let e = m0@.group_entry(groups@, stacks@, j)->0;
                        m0@.lemma_entry_kept(groups@, stacks@, capacity@, count as int, j);
                        m0@.lemma_entry_was_vacant(groups@, stacks@, capacity@, count as int, j);
                        assert forall|i: int| 0 <= i < j implies m0@.group_entry(
                            groups@,
                            stacks@,
                            i,
                        ) != Some(e) by {
                            assert(m0@.group_entry(groups@, stacks@, i) != m0@.group_entry(
                                groups@,
                                stacks@,
                                j,
                            ));
                        }
                        m0@.lemma_unwound(groups@, stacks@, capacity@, count as int, j, e);
                        all.lemma_still_resolved(self.reservations, token);
                    }
                    let _ = self.release_task_reservation(&token);
                },
                None => {},
            }
            index = index + 1;
        }
        proof {
            m0@.law_failed_plan_leaves_no_reservation(groups@, stacks@, capacity@, count as int);
        }
    }
}

impl SchedModel {
    /// The raw token of group `i`.
    pub open spec fn group_token(
        self,
        groups: Seq<TaskResourceGroupRequirements>,
        stacks: [[usize; 15]; 8],
        i: int,
    ) -> int {
        let table = self.plan_reserved(groups, stacks, i).reservations;
        reservation::token(
            table.vacancy()->0,
            reservation::next_generation(table.entries@[table.vacancy()->0].generation),
        )
    }

    /// The first `n` tokens name the entries of the first `n` groups, and there are no
    /// others.
    pub open spec fn batch_of(
        self,
        groups: Seq<TaskResourceGroupRequirements>,
        stacks: [[usize; 15]; 8],
        tokens: [Option<TaskReservation>; 8],
        table: ReservationTable,
        n: int,
    ) -> bool {
        &&& forall|j: int|
            0 <= j < n ==> {
                &&& (#[trigger] tokens@[j]) is Some
                &&& table.resolved(tokens@[j]->0) == self.group_entry(groups, stacks, j)
                &&& tokens@[j]->0.raw@ == self.group_token(groups, stacks, j)
            }
        &&& forall|j: int| n <= j < 8 ==> (#[trigger] tokens@[j]) is None
    }
}

} // verus!
