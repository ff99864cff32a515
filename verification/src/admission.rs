//! Requests for task resources and the batches that answer them.
use vstd::prelude::*;
use crate::error::{TaskReservation, TaskResourceOwner};
use crate::nonzero::{NonZeroU32, NonZeroUsize};

verus! {

/// Independently owned task groups that one plan can hold.
pub const TASK_RESOURCE_GROUP_CAPACITY: usize = 8;

/// Task slots and stack bytes required by one owner.
#[derive(Clone, Copy, Debug, Eq, PartialEq, Structural)]
pub struct TaskResourceRequirements {
    task_slots: NonZeroUsize,
    stack_bytes_per_task: NonZeroUsize,
}

impl TaskResourceRequirements {
    pub closed spec fn slots(self) -> usize {
        self.task_slots@
    }

    pub closed spec fn bytes(self) -> usize {
        self.stack_bytes_per_task@
    }

    #[verifier::type_invariant]
    spec fn bounded(self) -> bool {
        self.task_slots@ * self.stack_bytes_per_task@ <= usize::MAX
    }

    /// A request whose total stack size can be expressed.
    pub fn new(task_slots: NonZeroUsize, stack_bytes_per_task: NonZeroUsize) -> (r: Option<Self>)
        ensures
            match r {
                Some(request) => {
                    &&& task_slots@ * stack_bytes_per_task@ <= usize::MAX
                    &&& request.slots() == task_slots@
                    &&& request.bytes() == stack_bytes_per_task@
                },
                None => task_slots@ * stack_bytes_per_task@ > usize::MAX,
            },
    {
        match task_slots.get().checked_mul(stack_bytes_per_task.get()) {
            Some(_) => Some(TaskResourceRequirements { task_slots, stack_bytes_per_task }),
            None => None,
        }
    }

    /// Dynamic task slots required by the owner.
    pub fn task_slots(self) -> (r: NonZeroUsize)
        ensures
            r@ == self.slots(),
    {
        self.task_slots
    }

    /// Stack bytes reserved for each task.
    pub fn stack_bytes_per_task(self) -> (r: NonZeroUsize)
        ensures
            r@ == self.bytes(),
    {
        self.stack_bytes_per_task
    }

    /// Total task-stack bytes of the request.
    pub fn total_stack_bytes(self) -> (r: usize)
        ensures
            r == self.slots() * self.bytes(),
    {
        proof {
            use_type_invariant(&self);
        }
        self.task_slots.get() * self.stack_bytes_per_task.get()
    }
}

/// One independently owned task group of a plan.
#[derive(Clone, Copy, Debug, Eq, PartialEq, Structural)]
pub struct TaskResourceGroupRequirements {
    pub owner: TaskResourceOwner,
    pub resources: TaskResourceRequirements,
}

impl TaskResourceGroupRequirements {
    pub fn new(owner: TaskResourceOwner, resources: TaskResourceRequirements) -> (r: Self)
        ensures
            r.owner == owner,
            r.resources == resources,
    {
        TaskResourceGroupRequirements { owner, resources }
    }

    /// Owner receiving the resulting reservation.
    pub fn owner(self) -> (r: TaskResourceOwner)
        ensures
            r == self.owner,
    {
        self.owner
    }

    /// Slot and stack requirements of the group.
    pub fn resources(self) -> (r: TaskResourceRequirements)
        ensures
            r == self.resources,
    {
        self.resources
    }
}

/// The slots of all groups together.
pub open spec fn plan_slots(groups: Seq<TaskResourceGroupRequirements>) -> nat
    decreases groups.len(),
{
    if groups.len() == 0 {
        0
    } else {
        plan_slots(groups.drop_last()) + groups.last().resources.slots() as nat
    }
}

/// The stack bytes of all groups together.
pub open spec fn plan_bytes(groups: Seq<TaskResourceGroupRequirements>) -> nat
    decreases groups.len(),
{
    if groups.len() == 0 {
        0
    } else {
        plan_bytes(groups.drop_last()) + (groups.last().resources.slots() as nat)
            * (groups.last().resources.bytes() as nat)
    }
}

/// No two groups have the same owner.
pub open spec fn owners_differ(groups: Seq<TaskResourceGroupRequirements>) -> bool {
    forall|i: int, j: int|
        #![trigger groups[i], groups[j]]
        0 <= i < j < groups.len() ==> groups[i].owner.id@ != groups[j].owner.id@
}

/// One to eight groups of different owners whose totals can be expressed.
pub open spec fn plan_valid(groups: Seq<TaskResourceGroupRequirements>) -> bool {
    &&& 0 < groups.len() <= TASK_RESOURCE_GROUP_CAPACITY
    &&& owners_differ(groups)
    &&& plan_slots(groups) <= usize::MAX
    &&& plan_bytes(groups) <= usize::MAX
}

proof fn lemma_prefix_totals(groups: Seq<TaskResourceGroupRequirements>, n: int)
    requires
        0 <= n <= groups.len(),
    ensures
        plan_slots(groups.take(n)) <= plan_slots(groups),
        plan_bytes(groups.take(n)) <= plan_bytes(groups),
    decreases groups.len(),
{
    if n < groups.len() {
        lemma_prefix_totals(groups.drop_last(), n);
        assert(groups.drop_last().take(n) =~= groups.take(n));
        assert((groups.last().resources.slots() as nat) * (groups.last().resources.bytes() as nat)
            >= 0) by (nonlinear_arith);
    } else {
        assert(groups.take(n) =~= groups);
    }
}

/// A validated plan of task groups that is admitted as a whole.
#[derive(Clone, Copy, Debug)]
pub struct TaskResourcePlan<'a> {
    groups: &'a [TaskResourceGroupRequirements],
    total_task_slots: usize,
    total_stack_bytes: usize,
}

impl<'a> TaskResourcePlan<'a> {
    /// The groups of the plan, in order.
    pub closed spec fn view(&self) -> Seq<TaskResourceGroupRequirements> {
        self.groups@
    }

    #[verifier::type_invariant]
    spec fn valid(self) -> bool {
        &&& plan_valid(self.groups@)
        &&& self.total_task_slots == plan_slots(self.groups@)
        &&& self.total_stack_bytes == plan_bytes(self.groups@)
    }

    /// Validates group count, owner uniqueness and totals.
    pub fn new(groups: &'a [TaskResourceGroupRequirements]) -> (r: Option<Self>)
        ensures
            match r {
                Some(plan) => plan@ == groups@ && plan_valid(groups@),
                None => !plan_valid(groups@),
            },
    {
        if groups.len() == 0 || groups.len() > TASK_RESOURCE_GROUP_CAPACITY {
            return None;
        }
        let mut total_task_slots: usize = 0;
        let mut total_stack_bytes: usize = 0;
        let mut index: usize = 0;
        assert(groups@.take(0) =~= Seq::empty());
        while index < groups.len()
            invariant
                index <= groups@.len() <= TASK_RESOURCE_GROUP_CAPACITY,
                groups@.len() > 0,
                owners_differ(groups@.take(index as int)),
                total_task_slots == plan_slots(groups@.take(index as int)),
                total_stack_bytes == plan_bytes(groups@.take(index as int)),
            decreases groups@.len() - index,
        {
            let group = groups[index];
            let mut previous: usize = 0;
            while previous < index
                invariant
                    previous <= index < groups@.len(),
                    group == groups@[index as int],
                    forall|i: int|
                        0 <= i < previous ==> (#[trigger] groups@[i]).owner.id@ != group.owner.id@,
                decreases index - previous,
            {
                if groups[previous].owner.id.get() == group.owner.id.get() {
                    return None;
                }
                previous = previous + 1;
            }
            let ghost next = groups@.take(index + 1);
            proof {
                assert(next.drop_last() =~= groups@.take(index as int));
                assert(next.last() == group);
                lemma_prefix_totals(groups@, index + 1);
                assert(owners_differ(next)) by {
                    assert forall|i: int, j: int|
                        #![trigger next[i], next[j]]
                        0 <= i < j < next.len() implies next[i].owner.id@ != next[j].owner.id@ by {
                        if j < index {
                            assert(groups@.take(index as int)[i] == next[i]);
                            assert(groups@.take(index as int)[j] == next[j]);
                        } else {
                            assert(next[i] == groups@[i]);
                        }
                    }
                }
            }
            total_task_slots =
            match total_task_slots.checked_add(group.resources.task_slots().get()) {
                Some(value) => value,
                None => {
                    return None;
                },
            };
            total_stack_bytes =
            match total_stack_bytes.checked_add(group.resources.total_stack_bytes()) {
                Some(value) => value,
                None => {
                    return None;
                },
            };
            index = index + 1;
        }
        assert(groups@.take(groups@.len() as int) =~= groups@);
        Some(TaskResourcePlan { groups, total_task_slots, total_stack_bytes })
    }

    /// The groups of the plan; reservations come in the same order.
    pub fn groups(&self) -> (r: &'a [TaskResourceGroupRequirements])
        ensures
            r@ == self@,
            plan_valid(self@),
    {
        proof {
            use_type_invariant(self);
        }
        self.groups
    }

    /// Dynamic slots of all groups together.
    pub fn total_task_slots(&self) -> (r: usize)
        ensures
            r == plan_slots(self@),
    {
        proof {
            use_type_invariant(self);
        }
        self.total_task_slots
    }

    /// Stack bytes of all groups together.
    pub fn total_stack_bytes(&self) -> (r: usize)
        ensures
            r == plan_bytes(self@),
    {
        proof {
            use_type_invariant(self);
        }
        self.total_stack_bytes
    }
}

/// Reservations returned for the groups of one plan.
#[derive(Clone, Copy, Debug)]
pub struct TaskReservationBatch {
    pub reservations: [Option<TaskReservation>; 8],
    pub len: usize,
}

impl TaskReservationBatch {
    /// How many of the first `n` reservations have not been taken.
    pub open spec fn left(self, n: int) -> nat
        decreases n,
    {
        if n <= 0 {
            0
        } else {
            self.left(n - 1) + (if self.reservations@[n - 1] is Some {
                1nat
            } else {
                0nat
            })
        }
    }

    /// Number of reservations that the batch was made with.
    pub fn len(&self) -> (r: usize)
        ensures
            r == self.len,
    {
        self.len
    }

    pub fn is_empty(&self) -> (r: bool)
        ensures
            r == (self.len == 0),
    {
        self.len == 0
    }

    /// Removes one reservation by its place in the plan.
    pub fn take(&mut self, index: usize) -> (r: Option<TaskReservation>)
        ensures
            final(self).len == old(self).len,
            index < 8 ==> {
                &&& r == old(self).reservations@[index as int]
                &&& final(self).reservations@ == old(self).reservations@.update(index as int, None)
            },
            index >= 8 ==> r is None && final(self).reservations@ == old(self).reservations@,
    {
        if index < TASK_RESOURCE_GROUP_CAPACITY {
            let taken = self.reservations[index];
            self.reservations[index] = None;
            taken
        } else {
            None
        }
    }

    /// Number of reservations not yet taken.
    pub fn remaining(&self) -> (r: usize)
        requires
            self.len <= TASK_RESOURCE_GROUP_CAPACITY,
        ensures
            r == self.left(self.len as int),
    {
        let mut count: usize = 0;
        let mut index: usize = 0;
        while index < self.len
            invariant
                index <= self.len <= TASK_RESOURCE_GROUP_CAPACITY,
                count <= index,
                count == self.left(index as int),
            decreases self.len - index,
        {
            if self.reservations[index].is_some() {
                count = count + 1;
            }
            index = index + 1;
        }
        count
    }
}

/// Dynamic task slots of a runtime at one moment.
#[derive(Clone, Copy, Debug, Eq, PartialEq, Structural)]
pub struct TaskCapacity {
    pub dynamic_capacity: usize,
    pub dynamic_used: usize,
    pub dynamic_reserved: usize,
}

/// Validates a capacity snapshot through
/// `hisi_rf_rtos_driver::TaskCapacity::new_with_reserved`, which gives a snapshot with
/// the same three numbers if the used and reserved slots fit into the capacity, and
/// none otherwise.
#[verifier::external_body]
fn checked_capacity(capacity: usize, used: usize, reserved: usize) -> (r: Option<
    (usize, usize, usize),
>)
    ensures
        r == (if used + reserved <= capacity {
            Some((capacity, used, reserved))
        } else {
            None
        }),
{
    hisi_rf_rtos_driver::TaskCapacity::new_with_reserved(capacity, used, reserved).map(
        |c| (c.dynamic_capacity(), c.dynamic_used(), c.dynamic_reserved()),
    )
}

impl TaskCapacity {
    /// A snapshot whose used and reserved slots fit into the capacity.
    pub fn new_with_reserved(
        dynamic_capacity: usize,
        dynamic_used: usize,
        dynamic_reserved: usize,
    ) -> (r: Option<Self>)
        ensures
            r == (if dynamic_used + dynamic_reserved <= dynamic_capacity {
                Some(TaskCapacity { dynamic_capacity, dynamic_used, dynamic_reserved })
            } else {
                None
            }),
    {
        match checked_capacity(dynamic_capacity, dynamic_used, dynamic_reserved) {
            Some((capacity, used, reserved)) => Some(
                TaskCapacity {
                    dynamic_capacity: capacity,
                    dynamic_used: used,
                    dynamic_reserved: reserved,
                },
            ),
            None => None,
        }
    }

    /// Dynamic slots available at the time of the snapshot.
    pub fn dynamic_available(&self) -> (r: usize)
        requires
            self.dynamic_used + self.dynamic_reserved <= self.dynamic_capacity,
        ensures
            r == self.dynamic_capacity - self.dynamic_used - self.dynamic_reserved,
    {
        self.dynamic_capacity - self.dynamic_used - self.dynamic_reserved
    }
}

/// Periodic CPU quota requested for one task, in milliseconds.
#[derive(Clone, Copy, Debug, Eq, PartialEq, Structural)]
pub struct TaskBudget {
    capacity_ms: NonZeroU32,
    replenishment_period_ms: NonZeroU32,
}

impl TaskBudget {
    pub closed spec fn capacity(self) -> u32 {
        self.capacity_ms@
    }

    pub closed spec fn period(self) -> u32 {
        self.replenishment_period_ms@
    }

    #[verifier::type_invariant]
    spec fn ordered(self) -> bool {
        self.capacity_ms@ <= self.replenishment_period_ms@
    }

    /// A quota that does not exceed its replenishment period.
    pub fn try_new(capacity_ms: NonZeroU32, replenishment_period_ms: NonZeroU32) -> (r: Option<
        Self,
    >)
        ensures
            match r {
                Some(budget) => {
                    &&& capacity_ms@ <= replenishment_period_ms@
                    &&& budget.capacity() == capacity_ms@
                    &&& budget.period() == replenishment_period_ms@
                },
                None => capacity_ms@ > replenishment_period_ms@,
            },
    {
        if capacity_ms.get() <= replenishment_period_ms.get() {
            Some(TaskBudget { capacity_ms, replenishment_period_ms })
        } else {
            None
        }
    }

    /// Greatest CPU time within one period.
    pub fn capacity_ms(self) -> (r: NonZeroU32)
        ensures
            r@ == self.capacity(),
            self.capacity() <= self.period(),
    {
        proof {
            use_type_invariant(&self);
        }
        self.capacity_ms
    }

    /// Period after which the quota is replenished.
    pub fn replenishment_period_ms(self) -> (r: NonZeroU32)
        ensures
            r@ == self.period(),
            self.capacity() <= self.period(),
    {
        proof {
            use_type_invariant(&self);
        }
        self.replenishment_period_ms
    }
}

/// Execution policy requested together with a task.
#[derive(Clone, Copy, Debug, Eq, PartialEq, Structural)]
pub enum TaskExecutionPolicy {
    /// Runs until it yields, blocks or exits.
    Cooperative,
    /// Runs cooperatively until its periodic quota is exhausted.
    Budgeted(TaskBudget),
    /// Is preempted by equal-priority tasks at every time slice.
    Preemptive { time_slice_ms: NonZeroU32 },
}

} // verus!
