//! Stacks allocated ahead of the tasks that will run on them.
use vstd::prelude::*;
use crate::admission::{
    TaskResourceGroupRequirements, TaskResourcePlan, TaskResourceRequirements,
    TASK_RESOURCE_GROUP_CAPACITY,
};
use crate::blocks;
use crate::blocks::{BlockAllocator, BlockCall};
use crate::config::DYNAMIC_TASK_CAPACITY;
use crate::error::TaskAdmissionError;
use crate::reservation;

verus! {

/// Stacks that one request can hold: one for each required slot, as far as there are
/// slots.
pub open spec fn stack_count(required: TaskResourceRequirements) -> usize {
    if required.slots() < DYNAMIC_TASK_CAPACITY {
        required.slots()
    } else {
        DYNAMIC_TASK_CAPACITY
    }
}

/// A request that ran out of stack memory. The first `count` of `stacks` were
/// allocated, in this order, and must be released.
#[derive(Clone, Copy, Debug)]
pub struct StackShortfall {
    pub error: TaskAdmissionError,
    pub stacks: [usize; 15],
    pub count: usize,
}

/// The first `n` places of `stacks` hold stacks of `size` bytes, the others none.
pub open spec fn holds_stacks(stacks: Seq<usize>, size: usize, n: int) -> bool {
    &&& stacks.len() == 15
    &&& forall|i: int|
        0 <= i < n ==> (#[trigger] stacks[i]) != 0 && blocks::answers(size, stacks[i])
    &&& forall|i: int| n <= i < 15 ==> (#[trigger] stacks[i]) == 0
}

/// Allocates one stack for every required slot. As soon as one is refused, those that
/// were granted until then are listed to be released.
pub fn preallocate_task_stacks<A: BlockAllocator>(
    required: TaskResourceRequirements,
    allocator: &mut A,
) -> (r: Result<[usize; 15], StackShortfall>)
    ensures
        match r {
            Ok(stacks) => {
                let n = stack_count(required) as int;
                &&& holds_stacks(stacks@, required.bytes(), n)
                &&& final(allocator).log() == old(allocator).log() + blocks::grants(
                    required.bytes(),
                    stacks@.take(n),
                )
            },
            Err(shortfall) => {
                let n = shortfall.count as int;
                &&& n < stack_count(required)
                &&& holds_stacks(shortfall.stacks@, required.bytes(), n)
                &&& final(allocator).log() == (old(allocator).log() + blocks::grants(
                    required.bytes(),
                    shortfall.stacks@.take(n),
                )).push(BlockCall::Allocate { size: required.bytes(), address: 0 })
                &&& shortfall.error == (TaskAdmissionError::InsufficientTaskStackMemory {
                    required: (required.slots() * required.bytes()) as usize,
                    available: (n * required.bytes()) as usize,
                })
            },
        },
{
    let mut stacks: [usize; 15] = [0;15];
    let stack_size: usize = required.stack_bytes_per_task().get();
    let slots: usize = required.task_slots().get();
    let total: usize = required.total_stack_bytes();
    let wanted: usize = if slots < DYNAMIC_TASK_CAPACITY {
        slots
    } else {
        DYNAMIC_TASK_CAPACITY
    };
    let mut allocated: usize = 0;
    let ghost before = allocator.log();
    assert(before + blocks::grants(stack_size, stacks@.take(0)) =~= before);
    while allocated < wanted
        invariant
            stack_size == required.bytes(),
            slots == required.slots(),
            total == required.slots() * required.bytes(),
            wanted == stack_count(required),
            allocated <= wanted <= 15,
            holds_stacks(stacks@, stack_size, allocated as int),
            before == old(allocator).log(),
            allocator.log() == before + blocks::grants(
                stack_size,
                stacks@.take(allocated as int),
            ),
        decreases wanted - allocated,
    {
        let stack: usize = allocator.allocate_block(stack_size);
        if stack == 0 {
            assert(allocated * stack_size <= slots * stack_size) by (nonlinear_arith)
                requires
                    allocated <= slots,
            ;
            return Err(
                StackShortfall {
                    error: TaskAdmissionError::InsufficientTaskStackMemory {
                        required: total,
                        available: allocated * stack_size,
                    },
                    stacks,
                    count: allocated,
                },
            );
        }
        let ghost sofar = stacks@;
        stacks[allocated] = stack;
        proof {
            let n = allocated as int;
            assert(stacks@.take(n + 1) =~= sofar.take(n).push(stack));
            assert(before + blocks::grants(stack_size, stacks@.take(n + 1)) =~= (before
                + blocks::grants(stack_size, sofar.take(n))).push(
                BlockCall::Allocate { size: stack_size, address: stack },
            ));
        }
        allocated = allocated + 1;
    }
    Ok(stacks)
}

/// Stacks allocated for the groups of a plan.
#[derive(Clone, Copy, Debug)]
pub struct PreallocatedTaskResourcePlan {
    pub stacks: [[usize; 15]; 8],
    pub counts: [usize; 8],
}

impl PreallocatedTaskResourcePlan {
    /// No group holds more stacks than there are slots.
    pub open spec fn wf(self) -> bool {
        forall|g: int| 0 <= g < 8 ==> #[trigger] self.counts@[g] <= 15
    }

    /// The stacks of the first `n` groups, in order.
    pub open spec fn held(self, n: int) -> Seq<usize>
        decreases n,
    {
        if n <= 0 {
            Seq::empty()
        } else {
            self.held(n - 1) + reservation::live_stacks(
                self.stacks@[n - 1]@,
                0,
                self.counts@[n - 1] as int,
            )
        }
    }

    pub fn empty() -> (r: Self)
        ensures
            r.wf(),
            forall|g: int| 0 <= g < 8 ==> #[trigger] r.counts@[g] == 0,
            forall|g: int, i: int| 0 <= g < 8 && 0 <= i < 15 ==> #[trigger] r.stacks@[g]@[i] == 0,
    {
        PreallocatedTaskResourcePlan { stacks: [[0;15];8], counts: [0;8] }
    }

    /// Gives up every stack, in the order in which they were allocated.
    pub fn release_all(&mut self) -> (r: Vec<usize>)
        requires
            old(self).wf(),
        ensures
            final(self).wf(),
            r@ == old(self).held(8),
            forall|g: int| 0 <= g < 8 ==> #[trigger] final(self).counts@[g] == 0,
            final(self).held(8) == Seq::<usize>::empty(),
    {
        let mut released: Vec<usize> = Vec::new();
        let ghost before = *self;
        let mut group: usize = 0;
        while group < TASK_RESOURCE_GROUP_CAPACITY
            invariant
                group <= 8,
                before.wf(),
                released@ == before.held(group as int),
                forall|g: int| 0 <= g < group ==> #[trigger] self.counts@[g] == 0,
                forall|g: int|
                    group <= g < 8 ==> #[trigger] self.counts@[g] == before.counts@[g],
                forall|g: int|
                    group <= g < 8 ==> #[trigger] self.stacks@[g] == before.stacks@[g],
            decreases 8 - group,
        {
            let ghost sofar = released@;
            let count: usize = self.counts[group];
            assert(count <= 15) by {
                assert(before.counts@[group as int] <= 15);
            }
            let ghost line = before.stacks@[group as int]@;
            let mut slot: usize = 0;
            assert(sofar + reservation::live_stacks(line, 0, 0) =~= sofar);
            while slot < count
                invariant
                    slot <= count <= 15,
                    group < 8,
                    line == before.stacks@[group as int]@,
                    line.len() == 15,
                    released@ == sofar + reservation::live_stacks(line, 0, slot as int),
                    forall|i: int| slot <= i < 15 ==> #[trigger] self.stacks@[group as int]@[i] == line[i],
                    forall|g: int| 0 <= g < group ==> #[trigger] self.counts@[g] == 0,
                    forall|g: int|
                        group <= g < 8 ==> #[trigger] self.counts@[g] == before.counts@[g],
                    forall|g: int|
                        group < g < 8 ==> #[trigger] self.stacks@[g] == before.stacks@[g],
                decreases count - slot,
            {
                let stack: usize = self.stacks[group][slot];
                assert(stack == line[slot as int]);
                if stack != 0 {
                    released.push(stack);
                    self.stacks[group][slot] = 0;
                }
                assert(released@ =~= sofar + reservation::live_stacks(line, 0, slot + 1));
                slot = slot + 1;
            }
            self.counts[group] = 0;
            group = group + 1;
        }
        proof {
            self.lemma_nothing_held(8);
        }
        released
    }

    proof fn lemma_nothing_held(self, n: int)
        requires
            n <= 8,
            forall|g: int| 0 <= g < 8 ==> #[trigger] self.counts@[g] == 0,
        ensures
            self.held(n) == Seq::<usize>::empty(),
        decreases n,
    {
        if n > 0 {
            self.lemma_nothing_held(n - 1);
            assert(self.held(n) =~= Seq::empty());
        }
    }
}

/// A plan that ran out of stack memory, with the stacks that must be released.
#[derive(Clone, Copy, Debug)]
pub struct PlanShortfall {
    pub error: TaskAdmissionError,
    /// The group whose stacks could not all be allocated.
    pub group: usize,
    pub allocated: PreallocatedTaskResourcePlan,
}

/// A group that asks for more stacks than there are slots was given one more than can
/// be held. All of them must be released.
#[derive(Clone, Copy, Debug)]
pub struct PlanOverflow {
    /// The group that asks for too much.
    pub group: usize,
    pub allocated: PreallocatedTaskResourcePlan,
    /// The stack that no place is left for.
    pub surplus: usize,
}

/// Why no stacks could be had for a plan.
#[derive(Clone, Copy, Debug)]
pub enum PlanFailure {
    OutOfMemory(PlanShortfall),
    Overfull(PlanOverflow),
}

impl PreallocatedTaskResourcePlan {
    /// The groups before `group` hold one stack for each of their slots, `group` holds
    /// `slot` stacks, and no other place holds a stack.
    pub open spec fn holds(
        self,
        plan: Seq<TaskResourceGroupRequirements>,
        group: int,
        slot: int,
    ) -> bool {
        forall|g: int|
            0 <= g < 8 ==> {
                &&& #[trigger] self.counts@[g] == (if g < group {
                    plan[g].resources.slots() as int
                } else if g == group {
                    slot
                } else {
                    0
                })
                &&& holds_stacks(
                    self.stacks@[g]@,
                    plan[g].resources.bytes(),
                    self.counts@[g] as int,
                )
            }
    }

    /// The requests that the stacks of the first `n` groups answer, group by group.
    pub open spec fn calls(self, plan: Seq<TaskResourceGroupRequirements>, n: int) -> Seq<
        BlockCall,
    >
        decreases n,
    {
        if n <= 0 {
            Seq::empty()
        } else {
            self.calls(plan, n - 1) + blocks::grants(
                plan[n - 1].resources.bytes(),
                self.stacks@[n - 1]@.take(self.counts@[n - 1] as int),
            )
        }
    }

    /// What the groups before `n` hold does not depend on those after.
    proof fn lemma_calls_frame(
        self,
        other: PreallocatedTaskResourcePlan,
        plan: Seq<TaskResourceGroupRequirements>,
        n: int,
    )
        requires
            n <= 8,
            forall|g: int|
                0 <= g < n ==> (#[trigger] self.counts@[g]) == other.counts@[g]
                    && self.stacks@[g] == other.stacks@[g],
        ensures
            self.calls(plan, n) == other.calls(plan, n),
        decreases n,
    {
        if n > 0 {
            assert forall|g: int| 0 <= g < n - 1 implies (#[trigger] self.counts@[g])
                == other.counts@[g] && self.stacks@[g] == other.stacks@[g] by {}
            self.lemma_calls_frame(other, plan, n - 1);
            assert(self.counts@[n - 1] == other.counts@[n - 1]);
        }
    }

    /// The stacks that are held are those that the requests were given, in order.
    pub(crate) proof fn lemma_held_granted(
        self,
        before: Seq<BlockCall>,
        plan: Seq<TaskResourceGroupRequirements>,
        group: int,
        slot: int,
        n: int,
    )
        requires
            self.wf(),
            self.holds(plan, group, slot),
            0 <= n <= 8,
        ensures
            blocks::granted(before + self.calls(plan, n)) == blocks::granted(before) + self.held(
                n,
            ),
        decreases n,
    {
        if n == 0 {
            assert(before + self.calls(plan, 0) =~= before);
            assert(blocks::granted(before) + self.held(0) =~= blocks::granted(before));
        } else {
            let size = plan[n - 1].resources.bytes();
            let count = self.counts@[n - 1] as int;
            let line = self.stacks@[n - 1]@;
            self.lemma_held_granted(before, plan, group, slot, n - 1);
            assert(holds_stacks(line, size, count));
            blocks::lemma_granted_add(
                before + self.calls(plan, n - 1),
                size,
                line.take(count),
            );
            reservation::lemma_live_range(line, 0, count);
            assert(line.subrange(0, count) =~= line.take(count));
            assert(before + self.calls(plan, n) =~= (before + self.calls(plan, n - 1))
                + blocks::grants(size, line.take(count)));
            assert(blocks::granted(before) + self.held(n) =~= (blocks::granted(before)
                + self.held(n - 1)) + line.take(count));
        }
    }

    /// Groups from `n` on that hold nothing add nothing.
    pub(crate) proof fn lemma_held_tail(self, n: int)
        requires
            0 <= n <= 8,
            forall|g: int| n <= g < 8 ==> #[trigger] self.counts@[g] == 0,
        ensures
            self.held(8) == self.held(n),
        decreases 8 - n,
    {
        if n < 8 {
            self.lemma_held_tail(n + 1);
            assert(self.counts@[n] == 0);
            assert(self.held(n + 1) =~= self.held(n));
        }
    }
}

/// Allocates one stack for every slot of every group of a plan, group by group. As soon
/// as one is refused, the allocator is asked for the largest block that it has, and all
/// stacks that were granted until then are listed to be released.
pub fn preallocate_task_resource_plan<A: BlockAllocator>(
    plan: TaskResourcePlan<'_>,
    allocator: &mut A,
) -> (r: Result<PreallocatedTaskResourcePlan, PlanFailure>)
    ensures
        plan@.len() <= TASK_RESOURCE_GROUP_CAPACITY,
        match r {
            Ok(allocated) => {
                &&& allocated.wf()
                &&& allocated.holds(plan@, plan@.len() as int, 0)
                &&& final(allocator).log() == old(allocator).log() + allocated.calls(
                    plan@,
                    plan@.len() as int,
                )
            },
            Err(PlanFailure::OutOfMemory(shortfall)) => {
                let g = shortfall.group as int;
                let slot = shortfall.allocated.counts@[g] as int;
                let size = plan@[g].resources.bytes();
                &&& g < plan@.len()
                &&& slot < plan@[g].resources.slots()
                &&& shortfall.allocated.wf()
                &&& shortfall.allocated.holds(plan@, g, slot)
                &&& shortfall.error
                    matches TaskAdmissionError::InsufficientTaskGroupStackMemory {
                    owner,
                    required,
                    available,
                    largest_contiguous,
                }
                &&& owner == plan@[g].owner
                &&& required == plan@[g].resources.slots() * size
                &&& available == slot * size
                &&& final(allocator).log() == (old(allocator).log() + shortfall.allocated.calls(
                    plan@,
                    g + 1,
                )).push(BlockCall::Allocate { size, address: 0 }).push(
                    BlockCall::Probe { largest: largest_contiguous },
                )
            },
            Err(PlanFailure::Overfull(overflow)) => {
                let g = overflow.group as int;
                let size = plan@[g].resources.bytes();
                &&& g < plan@.len()
                &&& plan@[g].resources.slots() > 15
                &&& overflow.allocated.wf()
                &&& overflow.allocated.holds(plan@, g, 15)
                &&& overflow.surplus != 0
                &&& blocks::answers(size, overflow.surplus)
                &&& final(allocator).log() == (old(allocator).log() + overflow.allocated.calls(
                    plan@,
                    g + 1,
                )).push(BlockCall::Allocate { size, address: overflow.surplus })
            },
        },
{
    let groups = plan.groups();
    let mut allocated = PreallocatedTaskResourcePlan::empty();
    let mut index: usize = 0;
    let ghost before = allocator.log();
    assert(before + allocated.calls(plan@, 0) =~= before);
    while index < groups.len()
        invariant
            groups@ == plan@,
            index <= plan@.len() <= 8,
            allocated.wf(),
            allocated.holds(plan@, index as int, 0),
            before == old(allocator).log(),
            allocator.log() == before + allocated.calls(plan@, index as int),
        decreases plan@.len() - index,
    {
        let group = groups[index];
        let required = group.resources();
        let stack_size: usize = required.stack_bytes_per_task().get();
        let slots: usize = required.task_slots().get();
        let total: usize = required.total_stack_bytes();
        let mut slot: usize = 0;
        proof {
            let g = index as int;
            assert(allocated.counts@[g] == 0);
            assert(before + allocated.calls(plan@, g + 1) =~= before + allocated.calls(plan@, g));
        }
        while slot < slots
            invariant
                index < plan@.len() <= 8,
                group == plan@[index as int],
                required == group.resources,
                stack_size == required.bytes(),
                slots == required.slots(),
                total == required.slots() * required.bytes(),
                slot <= slots,
                slot <= 15,
                allocated.wf(),
                allocated.holds(plan@, index as int, slot as int),
                before == old(allocator).log(),
                allocator.log() == before + allocated.calls(plan@, index + 1),
            decreases slots - slot,
        {
            assert(allocated.counts@[index as int] == slot);
            let stack: usize = allocator.allocate_block(stack_size);
            if stack == 0 {
                assert(slot * stack_size <= slots * stack_size) by (nonlinear_arith)
                    requires
                        slot <= slots,
                ;
                let largest_contiguous: usize = allocator.largest_block();
                return Err(
                    PlanFailure::OutOfMemory(
                        PlanShortfall {
                            error: TaskAdmissionError::InsufficientTaskGroupStackMemory {
                                owner: group.owner(),
                                required: total,
                                available: slot * stack_size,
                                largest_contiguous,
                            },
                            group: index,
                            allocated,
                        },
                    ),
                );
            }
            if slot == DYNAMIC_TASK_CAPACITY {
                return Err(
                    PlanFailure::Overfull(
                        PlanOverflow { group: index, allocated, surplus: stack },
                    ),
                );
            }
            let ghost sofar = allocated;
            allocated.stacks[index][slot] = stack;
            allocated.counts[index] = slot + 1;
            proof {
                let g = index as int;
                let n = slot as int;
                assert forall|h: int| 0 <= h < 8 && h != g implies allocated.stacks@[h]
                    == sofar.stacks@[h] && #[trigger] allocated.counts@[h]
                    == sofar.counts@[h] by {}
                assert(allocated.stacks@[g]@ =~= sofar.stacks@[g]@.update(n, stack));
                assert(sofar.counts@[g] == n);
                allocated.lemma_calls_frame(sofar, plan@, g);
                let old_line = sofar.stacks@[g]@.take(n);
                let line = allocated.stacks@[g]@.take(n + 1);
                assert(line =~= old_line.push(stack));
                assert(before + allocated.calls(plan@, g + 1) =~= (before + sofar.calls(
                    plan@,
                    g + 1,
                )).push(BlockCall::Allocate { size: stack_size, address: stack }));
                assert forall|h: int| 0 <= h < 8 implies {
                    &&& #[trigger] allocated.counts@[h] == (if h < g {
                        plan@[h].resources.slots() as int
                    } else if h == g {
                        n + 1
                    } else {
                        0
                    })
                    &&& holds_stacks(
                        allocated.stacks@[h]@,
                        plan@[h].resources.bytes(),
                        allocated.counts@[h] as int,
                    )
                } by {
                    assert(holds_stacks(
                        sofar.stacks@[h]@,
                        plan@[h].resources.bytes(),
                        sofar.counts@[h] as int,
                    ));
                }
            }
            slot = slot + 1;
        }
        index = index + 1;
    }
    Ok(allocated)
}

} // verus!
