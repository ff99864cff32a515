//! Admission services of the runtime.
use vstd::prelude::*;
use crate::admission::{
    TaskCapacity, TaskReservationBatch, TaskResourceGroupRequirements, TaskResourcePlan,
    TaskResourceRequirements,
};
use crate::blocks;
use crate::blocks::{BlockAllocator, BlockCall};
use crate::error::{DriverError, TaskAdmissionError, TaskReservation};
use crate::kernel::Kernel;
use crate::nonzero::NonZeroUsize;
use crate::reservation;
use crate::reservation::ReleasedTaskResources;
use crate::stacks;
use crate::stacks::{
    preallocate_task_resource_plan, preallocate_task_stacks, PlanFailure,
    PreallocatedTaskResourcePlan,
};

verus! {

/// The answer to a request for slots with stacks. Every stack in `release` was
/// allocated for the request and is not used by it.
pub struct AdmissionOutcome {
    pub result: Result<TaskReservation, TaskAdmissionError>,
    pub release: Vec<usize>,
}

/// Why a plan was not admitted.
#[derive(Clone, Copy, Debug, Eq, PartialEq, Structural)]
pub enum PlanRefusal {
    /// Slots, reservations or stack memory ran out.
    Refused(TaskAdmissionError),
    /// A group asks for more stacks than there are slots, and was given them.
    Overfull,
}

/// The answer to a plan. Every stack in `release` was allocated for the plan and is not
/// used by it.
pub struct PlanOutcome {
    pub result: Result<TaskReservationBatch, PlanRefusal>,
    pub release: Vec<usize>,
}

fn first_of(stacks: &[usize; 15], count: usize) -> (r: Vec<usize>)
    requires
        count <= 15,
    ensures
        r@ == stacks@.take(count as int),
{
    let mut list: Vec<usize> = Vec::new();
    let mut index: usize = 0;
    while index < count
        invariant
            index <= count <= 15,
            list@ == stacks@.take(index as int),
        decreases count - index,
    {
        list.push(stacks[index]);
        assert(list@ =~= stacks@.take(index + 1));
        index = index + 1;
    }
    list
}

/// Requests that were all granted were given exactly their blocks.
proof fn lemma_granted_alone(size: usize, given: Seq<usize>)
    requires
        forall|i: int| 0 <= i < given.len() ==> (#[trigger] given[i]) != 0,
    ensures
        blocks::granted(blocks::grants(size, given)) == given,
{
    let none = Seq::<BlockCall>::empty();
    blocks::lemma_granted_add(none, size, given);
    assert(none + blocks::grants(size, given) =~= blocks::grants(size, given));
    assert(blocks::granted(none) + given =~= given);
}

/// The stacks that a plan holds are those that its requests were given, in order.
proof fn lemma_plan_granted(
    held: PreallocatedTaskResourcePlan,
    plan: Seq<TaskResourceGroupRequirements>,
    group: int,
    slot: int,
    n: int,
)
    requires
        held.wf(),
        held.holds(plan, group, slot),
        0 <= n <= 8,
        forall|g: int| n <= g < 8 ==> #[trigger] held.counts@[g] == 0,
    ensures
        blocks::granted(held.calls(plan, n)) == held.held(8),
{
    let none = Seq::<BlockCall>::empty();
    held.lemma_held_granted(none, plan, group, slot, n);
    held.lemma_held_tail(n);
    assert(none + held.calls(plan, n) =~= held.calls(plan, n));
    assert(blocks::granted(none) + held.held(n) =~= held.held(n));
}

impl Kernel {
    /// Dynamic task slots at this moment.
    pub fn task_capacity(&self) -> (r: Result<TaskCapacity, DriverError>)
        requires
            self.wf(),
        ensures
            ({
                let d = self.sched@.snapshot(self.capacity() as u8);
                r == (if d.dynamic_used + d.dynamic_reserved <= d.dynamic_capacity {
                    Ok::<_, DriverError>(
                        TaskCapacity {
                            dynamic_capacity: d.dynamic_capacity as usize,
                            dynamic_used: d.dynamic_used as usize,
                            dynamic_reserved: d.dynamic_reserved as usize,
                        },
                    )
                } else {
                    Err(DriverError::Runtime)
                })
            }),
    {
        let d = self.sched.diagnostics_with_capacity(self.dynamic_capacity());
        match TaskCapacity::new_with_reserved(
            d.dynamic_capacity as usize,
            d.dynamic_used as usize,
            d.dynamic_reserved as usize,
        ) {
            Some(capacity) => Ok(capacity),
            None => Err(DriverError::Runtime),
        }
    }

    /// Sets aside dynamic task slots.
    pub fn reserve_tasks(&mut self, required: NonZeroUsize) -> (r: Result<
        TaskReservation,
        TaskAdmissionError,
    >)
        requires
            old(self).wf(),
            old(self).sched@.coherent(),
        ensures
            final(self).wf(),
            final(self).sched@.coherent(),
            final(self).same_shell(*old(self)),
            old(self).sched@.admits(
                final(self).sched,
                required@,
                old(self).capacity(),
                None,
                r,
            ),
    {
        let ghost m0 = self.sched@;
        let capacity: usize = self.dynamic_capacity();
        let result = self.sched.reserve_dynamic_slots_with_capacity(required, capacity);
        proof {
            m0.lemma_coherent_frame(self.sched@);
        }
        result
    }

    /// Sets aside dynamic task slots with a stack for each. The allocator is asked for one
    /// stack after the other; the first refusal ends the request, and otherwise the slots
    /// decide.
    pub fn reserve_task_resources<A: BlockAllocator>(
        &mut self,
        allocator: &mut A,
        required: TaskResourceRequirements,
    ) -> (r: AdmissionOutcome)
        requires
            old(self).wf(),
            old(self).sched@.coherent(),
        ensures
            final(self).wf(),
            final(self).sched@.coherent(),
            final(self).same_shell(*old(self)),
            r.release@ == (if r.result is Ok {
                Seq::empty()
            } else {
                blocks::granted(final(allocator).log().skip(old(allocator).log().len() as int))
            }),
            r.result matches Err(TaskAdmissionError::InsufficientTaskStackMemory { .. })
                <==> final(allocator).log().last() == (BlockCall::Allocate {
                size: required.bytes(),
                address: 0,
            }),
            ({
                ||| exists|stacks: [usize; 15]|
                    #![trigger stacks@]
                    {
                        let n = stacks::stack_count(required) as int;
                        &&& stacks::holds_stacks(stacks@, required.bytes(), n)
                        &&& final(allocator).log() == old(allocator).log() + blocks::grants(
                            required.bytes(),
                            stacks@.take(n),
                        )
                        &&& old(self).sched@.admits(
                            final(self).sched,
                            required.slots(),
                            old(self).capacity(),
                            Some((required.bytes(), stacks)),
                            r.result,
                        )
                    }
                ||| {
                    &&& final(self).sched@ == old(self).sched@
                    &&& r.release@.len() < stacks::stack_count(required)
                    &&& final(allocator).log() == (old(allocator).log() + blocks::grants(
                        required.bytes(),
                        r.release@,
                    )).push(BlockCall::Allocate { size: required.bytes(), address: 0 })
                    &&& forall|i: int|
                        0 <= i < r.release@.len() ==> (#[trigger] r.release@[i]) != 0
                            && blocks::answers(required.bytes(), r.release@[i])
                    &&& r.result == Err::<TaskReservation, _>(
                        TaskAdmissionError::InsufficientTaskStackMemory {
                            required: (required.slots() * required.bytes()) as usize,
                            available: (r.release@.len() * required.bytes()) as usize,
                        },
                    )
                }
            }),
    {
        let ghost m0 = self.sched@;
        let ghost before = allocator.log();
        let held = match preallocate_task_stacks(required, allocator) {
            Ok(held) => held,
            Err(shortfall) => {
                let release = first_of(&shortfall.stacks, shortfall.count);
                proof {
                    let calls = blocks::grants(required.bytes(), release@);
                    let refused = BlockCall::Allocate { size: required.bytes(), address: 0 };
                    lemma_granted_alone(required.bytes(), release@);
                    blocks::lemma_granted_push(calls, refused);
                    assert(allocator.log().skip(before.len() as int) =~= calls.push(refused));
                }
                return AdmissionOutcome { result: Err(shortfall.error), release };
            },
        };
        let capacity: usize = self.dynamic_capacity();
        let result = self.sched.reserve_dynamic_task_resources_with_capacity(
            required,
            held,
            capacity,
        );
        let slots: usize = required.task_slots().get();
        let count: usize = if slots < 15 {
            slots
        } else {
            15
        };
        proof {
            m0.lemma_coherent_frame(self.sched@);
            let calls = blocks::grants(required.bytes(), held@.take(count as int));
            lemma_granted_alone(required.bytes(), held@.take(count as int));
            assert(allocator.log().skip(before.len() as int) =~= calls);
            assert(stacks::holds_stacks(held@, required.bytes(), count as int));
        }
        let mut release: Vec<usize> = Vec::new();
        if result.is_err() {
            release = first_of(&held, count);
        }
        AdmissionOutcome { result, release }
    }

    /// Reserves every group of a plan with its stacks, or none of them. The allocator is
    /// asked for one stack after the other, group by group; the first refusal ends the
    /// plan, and otherwise the slots decide.
    pub fn reserve_task_resource_plan<A: BlockAllocator>(
        &mut self,
        allocator: &mut A,
        plan: TaskResourcePlan<'_>,
    ) -> (r: PlanOutcome)
        requires
            old(self).wf(),
            old(self).sched@.coherent(),
        ensures
            final(self).wf(),
            final(self).sched@.coherent(),
            final(self).same_shell(*old(self)),
            r.release@ == (if r.result is Ok {
                Seq::empty()
            } else {
                blocks::granted(final(allocator).log().skip(old(allocator).log().len() as int))
            }),
            ({
                ||| exists|allocated: PreallocatedTaskResourcePlan|
                    #![trigger allocated.holds(plan@, plan@.len() as int, 0)]
                    {
                        let n = plan@.len() as int;
                        let stacks = allocated.stacks;
                        &&& allocated.holds(plan@, n, 0)
                        &&& final(allocator).log() == old(allocator).log() + allocated.calls(
                            plan@,
                            n,
                        )
                        &&& match old(self).sched@.plan_failure(
                            plan@,
                            stacks,
                            old(self).capacity(),
                            n,
                        ) {
                            Some((failed, error)) => {
                                &&& r.result == Err::<TaskReservationBatch, _>(
                                    PlanRefusal::Refused(error),
                                )
                                &&& final(self).sched@ == old(self).sched@.plan_unwound(
                                    plan@,
                                    stacks,
                                    failed,
                                    failed,
                                )
                                &&& final(self).sched.reservations.promises_like(
                                    old(self).sched.reservations,
                                )
                            },
                            None => {
                                &&& r.result is Ok
                                &&& r.result->Ok_0.len == n
                                &&& final(self).sched@ == old(self).sched@.plan_reserved(
                                    plan@,
                                    stacks,
                                    n,
                                )
                                &&& old(self).sched@.batch_of(
                                    plan@,
                                    stacks,
                                    r.result->Ok_0.reservations,
                                    final(self).sched.reservations,
                                    n,
                                )
                            },
                        }
                    }
                ||| exists|allocated: PreallocatedTaskResourcePlan, g: int, slot: int|
                    {
                        let size = plan@[g].resources.bytes();
                        &&& #[trigger] allocated.holds(plan@, g, slot)
                        &&& 0 <= g < plan@.len()
                        &&& 0 <= slot < plan@[g].resources.slots()
                        &&& final(self).sched@ == old(self).sched@
                        &&& r.result
                            matches Err(PlanRefusal::Refused(TaskAdmissionError::InsufficientTaskGroupStackMemory {
                            owner,
                            required,
                            available,
                            largest_contiguous,
                        }))
                        &&& owner == plan@[g].owner
                        &&& required == plan@[g].resources.slots() * size
                        &&& available == slot * size
                        &&& final(allocator).log() == (old(allocator).log() + allocated.calls(
                            plan@,
                            g + 1,
                        )).push(BlockCall::Allocate { size, address: 0 }).push(
                            BlockCall::Probe { largest: largest_contiguous },
                        )
                    }
                ||| exists|allocated: PreallocatedTaskResourcePlan, g: int, surplus: usize|
                    #![trigger allocated.holds(plan@, g, 15), blocks::answers(plan@[g].resources.bytes(), surplus)]
                    {
                        let size = plan@[g].resources.bytes();
                        &&& allocated.holds(plan@, g, 15)
                        &&& blocks::answers(size, surplus)
                        &&& 0 <= g < plan@.len()
                        &&& plan@[g].resources.slots() > 15
                        &&& surplus != 0
                        &&& final(self).sched@ == old(self).sched@
                        &&& r.result == Err::<TaskReservationBatch, _>(PlanRefusal::Overfull)
                        &&& final(allocator).log() == (old(allocator).log()
                            + allocated.calls(plan@, g + 1)).push(
                            BlockCall::Allocate { size, address: surplus },
                        )
                    }
            }),
    {
        let ghost m0 = self.sched@;
        let ghost before = allocator.log();
        let mut allocated: PreallocatedTaskResourcePlan = match preallocate_task_resource_plan(
            plan,
            allocator,
        ) {
            Ok(allocated) => allocated,
            Err(PlanFailure::OutOfMemory(shortfall)) => {
                let mut held = shortfall.allocated;
                proof {
                    let g = shortfall.group as int;
                    let slot = held.counts@[g] as int;
                    let size = plan@[g].resources.bytes();
                    let calls = held.calls(plan@, g + 1);
                    let refused = BlockCall::Allocate { size, address: 0 };
                    let probe = allocator.log().last();
                    lemma_plan_granted(held, plan@, g, slot, g + 1);
                    blocks::lemma_granted_push(calls, refused);
                    blocks::lemma_granted_push(calls.push(refused), probe);
                    assert(allocator.log().skip(before.len() as int) =~= calls.push(refused).push(
                        probe,
                    ));
                }
                let release = held.release_all();
                return PlanOutcome {
                    result: Err(PlanRefusal::Refused(shortfall.error)),
                    release,
                };
            },
            Err(PlanFailure::Overfull(overflow)) => {
                let mut held = overflow.allocated;
                proof {
                    let g = overflow.group as int;
                    let size = plan@[g].resources.bytes();
                    let calls = held.calls(plan@, g + 1);
                    let last = BlockCall::Allocate { size, address: overflow.surplus };
                    lemma_plan_granted(held, plan@, g, 15, g + 1);
                    blocks::lemma_granted_push(calls, last);
                    assert(allocator.log().skip(before.len() as int) =~= calls.push(last));
                }
                let mut release = held.release_all();
                release.push(overflow.surplus);
                return PlanOutcome { result: Err(PlanRefusal::Overfull), release };
            },
        };
        let ghost held = allocated.stacks;
        let capacity: usize = self.dynamic_capacity();
        let result = self.sched.reserve_dynamic_task_resource_plan_with_capacity(
            plan,
            allocated.stacks,
            capacity,
        );
        proof {
            let n = plan@.len() as int;
            m0.lemma_plan_frame(plan@, held, n);
            match m0.plan_failure(plan@, held, capacity, n) {
                Some((failed, error)) => {
                    m0.lemma_unwound_frame(plan@, held, failed, failed);
                },
                None => {},
            }
            m0.lemma_coherent_frame(self.sched@);
            lemma_plan_granted(allocated, plan@, n, 0, n);
            assert(allocator.log().skip(before.len() as int) =~= allocated.calls(plan@, n));
            assert(allocated.holds(plan@, n, 0));
        }
        match result {
            Ok(batch) => PlanOutcome { result: Ok(batch), release: Vec::new() },
            Err(error) => {
                let release = allocated.release_all();
                PlanOutcome { result: Err(PlanRefusal::Refused(error)), release }
            },
        }
    }

    /// Gives up a reservation; the stacks that it held must be released.
    pub fn release_task_reservation(&mut self, reservation: &TaskReservation) -> (r: Result<
        ReleasedTaskResources,
        DriverError,
    >)
        requires
            old(self).wf(),
            old(self).sched@.coherent(),
        ensures
            final(self).wf(),
            final(self).sched@.coherent(),
            final(self).same_shell(*old(self)),
            match old(self).sched@.reservations.resolved(*reservation) {
                Some(entry) => {
                    let e = old(self).sched@.reservations.entries@[entry];
                    &&& r is Ok
                    &&& r->Ok_0.count <= 15
                    &&& r->Ok_0@ == reservation::live_stacks(
                        e.stacks@,
                        e.next_stack as int,
                        e.stack_count as int,
                    )
                    &&& final(self).sched@ == old(self).sched@.with_reservations(
                        old(self).sched@.reservations.released(entry),
                    )
                },
                None => {
                    &&& r == Err::<ReleasedTaskResources, _>(DriverError::InvalidHandle)
                    &&& final(self).sched@ == old(self).sched@
                },
            },
    {
        let ghost m0 = self.sched@;
        let released = self.sched.release_task_reservation(reservation);
        proof {
            m0.lemma_coherent_frame(self.sched@);
        }
        released
    }
}

} // verus!
