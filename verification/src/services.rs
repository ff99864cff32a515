//! Task services of the runtime.
use vstd::prelude::*;
use crate::admission::TaskExecutionPolicy;
use crate::blocks::{BlockAllocator, BlockCall};
use crate::config::{Diagnostics, Ported, RuntimeHandle, TASK_SLOT_COUNT};
use crate::context::TASK_CONTEXT_BYTES;
use crate::error::{
    DriverError, TaskId, TaskReservation, WaitCancellationOutcome,
};
use crate::identity;
use crate::identity::{decode_task_id, encode_task_id};
use crate::kernel::Kernel;
use crate::lifecycle;
use crate::lifecycle::SpawnRequest;
use crate::metrics;
use crate::model::{SchedModel, SwitchIntent};
use crate::reservation;
use crate::scheduler::Sched;
use crate::scheduling;
use crate::scheduling::{BudgetSpec, RunPolicy};
use crate::task::{State, Tcb};

verus! {

/// Where the stack of a new task comes from, and its size.
#[derive(Clone, Copy, Debug, Eq, PartialEq, Structural)]
pub enum StackSource {
    /// The reservation holds a stack of this size.
    Reserved(usize),
    /// A stack of this size must be allocated.
    Fresh(usize),
}

/// What became of a request for a task. A non-zero `release` is a stack that the task
/// does not use and that must be released.
#[derive(Clone, Copy, Debug, Eq, PartialEq)]
pub struct SpawnOutcome {
    pub result: Result<TaskId, DriverError>,
    pub release: usize,
}

/// What a request to sleep led to.
#[derive(Clone, Copy, Debug, Eq, PartialEq, Structural)]
pub enum SleepStep {
    /// A request for no time at all only yields.
    Yielded(Option<SwitchIntent>),
    /// The task in this slot sleeps; the timer must be programmed anew and another task
    /// chosen.
    Asleep(usize),
}

/// What a requested execution policy becomes. Policies that need a timer need a port.
pub open spec fn policy_mapped(
    policy: TaskExecutionPolicy,
    ported: bool,
    result: Result<RunPolicy, DriverError>,
) -> bool {
    match policy {
        TaskExecutionPolicy::Cooperative => result == Ok::<_, DriverError>(RunPolicy::Cooperative),
        TaskExecutionPolicy::Preemptive { time_slice_ms } => result == (if ported {
            Ok::<_, DriverError>(RunPolicy::Preemptive { time_slice: time_slice_ms })
        } else {
            Err(DriverError::IncompatibleExecutionProfile)
        }),
        TaskExecutionPolicy::Budgeted(budget) => if ported {
            &&& result matches Ok(RunPolicy::Budgeted(spec))
            &&& spec.capacity_ms() == budget.capacity()
            &&& spec.period_ms() == budget.period()
        } else {
            result == Err::<RunPolicy, _>(DriverError::IncompatibleExecutionProfile)
        },
    }
}

/// Maps a requested execution policy.
pub fn map_execution_policy(policy: TaskExecutionPolicy, ported: bool) -> (r: Result<
    RunPolicy,
    DriverError,
>)
    ensures
        policy_mapped(policy, ported, r),
{
    match policy {
        TaskExecutionPolicy::Cooperative => Ok(RunPolicy::Cooperative),
        TaskExecutionPolicy::Budgeted(budget) => {
            if !ported {
                return Err(DriverError::IncompatibleExecutionProfile);
            }
            match BudgetSpec::try_new(budget.capacity_ms(), budget.replenishment_period_ms()) {
                Some(spec) => Ok(RunPolicy::Budgeted(spec)),
                None => Err(DriverError::IncompatibleContract),
            }
        },
        TaskExecutionPolicy::Preemptive { time_slice_ms } => {
            if !ported {
                return Err(DriverError::IncompatibleExecutionProfile);
            }
            Ok(RunPolicy::Preemptive { time_slice: time_slice_ms })
        },
    }
}

/// A stack ends inside the address space and, where tasks are switched by traps, has
/// room for a first trap frame.
pub open spec fn stack_usable(stack: usize, size: usize, trap: bool) -> bool {
    &&& stack + size <= usize::MAX
    &&& trap ==> lifecycle::top_of(stack, size) >= TASK_CONTEXT_BYTES
}

impl SchedModel {
    /// The base priority of `slot` changes, and what it inherits stays.
    pub open spec fn base_priority_set(self, slot: usize, priority: u8) -> SchedModel {
        self.with_task(slot, Tcb { base_priority: priority, ..self.task(slot) }).refreshed(
            slot,
            TASK_SLOT_COUNT as nat,
        )
    }

    pub(crate) proof fn lemma_base_priority_set(self, slot: usize, priority: u8)
        requires
            self.coherent(),
            slot < TASK_SLOT_COUNT,
            priority < 32,
        ensures
            ({
                let m = self.with_task(slot, Tcb { base_priority: priority, ..self.task(slot) });
                &&& m.coherent()
                &&& m.refreshable(slot, TASK_SLOT_COUNT as nat)
            }),
            self.base_priority_set(slot, priority).coherent(),
            self.tidy() ==> self.base_priority_set(slot, priority).tidy(),
            self.base_priority_set(slot, priority).reservations == self.reservations,
            self.stirred(self.base_priority_set(slot, priority)),
    {
        let t = Tcb { base_priority: priority, ..self.task(slot) };
        let m = self.with_task(slot, t);
        let n = self.base_priority_set(slot, priority);
        assert(self.tasks[slot as int].priority < 32);
        assert(self.tasks[slot as int].granted_sem <= 32);
        assert(self.task(slot).waiting_sem != 0 || self.task(slot).waiting_mutex != 0
            ==> self.task(slot).state == State::Blocked);
        if self.ready_queued(slot) {
            assert(self.queues[self.ready_key(slot)].contains(slot));
        }
        self.lemma_tweak_coherent(slot, t);
        m.lemma_waits_sems();
        assert(m.chain_live(slot, TASK_SLOT_COUNT as nat));
        m.lemma_refreshed(slot, TASK_SLOT_COUNT as nat);
        m.lemma_kin_coherent(n);
        m.lemma_kin_stirred(n);
        assert(self.stirred(m));
        self.lemma_stirred_trans(m, n);
        if self.tidy() {
            assert forall|x: usize| x < TASK_SLOT_COUNT && x != slot implies #[trigger] m.settled(
                x,
            ) by {
                assert(self.settled(x));
                assert(m.task(x) == self.task(x));
            }
            assert(m.all_by_priority()) by {
                assert forall|q: int| 32 <= q < 96 implies #[trigger] m.by_priority(q) by {
                    assert(self.by_priority(q));
                    self.lemma_order_frame(m, q);
                }
            }
            m.lemma_kin_idle(n);
        }
    }

    /// Equal priorities keep a queue in order.
    proof fn lemma_order_frame(self, other: SchedModel, q: int)
        requires
            self.coherent(),
            0 <= q < 96,
            self.by_priority(q),
            other.queues == self.queues,
            forall|x: usize|
                x < TASK_SLOT_COUNT ==> (#[trigger] other.task(x)).priority == self.task(
                    x,
                ).priority,
        ensures
            other.by_priority(q),
    {
        let s = self.queues[q];
        assert forall|i: int, j: int|
            #![trigger s[i], s[j]]
            0 <= i < j < s.len() implies other.tasks[s[i] as int].priority
            <= other.tasks[s[j] as int].priority by {
            assert(s.contains(s[i]) && s.contains(s[j]));
            self.lemma_member_is_task(q, s[i]);
            self.lemma_member_is_task(q, s[j]);
            assert(other.task(s[i]).priority == self.task(s[i]).priority);
            assert(other.task(s[j]).priority == self.task(s[j]).priority);
        }
    }
}

impl Sched {
    /// Changes the base priority of a task; what it inherits stays.
    pub fn set_base_priority(&mut self, slot: usize, priority: u8)
        requires
            old(self).wf(),
            old(self)@.coherent(),
            slot < TASK_SLOT_COUNT,
            priority < 32,
        ensures
            final(self).wf(),
            final(self)@.coherent(),
            final(self)@ == old(self)@.base_priority_set(slot, priority),
    {
        let ghost m0 = self@;
        proof {
            m0.lemma_base_priority_set(slot, priority);
            assert(m0.tasks[slot as int] == self.tasks@[slot as int].unlinked());
        }
        let mut block = self.tasks[slot];
        block.base_priority = priority;
        self.set_task(slot, block);
        self.refresh_inherited_priority(slot, 0);
    }
}

impl Kernel {
    /// The slot of the live task that an identity names.
    pub open spec fn task_slot(self, task: TaskId) -> Option<usize> {
        match identity::task_of(task) {
            Some((slot, generation)) => if self.sched@.task(slot).state != State::Free
                && self.sched@.task(slot).identity_generation == generation {
                Some(slot)
            } else {
                None
            },
            None => None,
        }
    }

    /// The slot of the live task that an identity names, unless it is the idle thread,
    /// which cannot be reconfigured.
    pub open spec fn configurable_slot(self, task: TaskId) -> Option<usize> {
        match self.task_slot(task) {
            Some(slot) => if self.sched@.is_idle(slot) {
                None
            } else {
                Some(slot)
            },
            None => None,
        }
    }

    /// An identity names nobody once its slot has been reused, until the slot has seen
    /// every other generation.
    pub proof fn law_former_identity_names_nobody(self, stale: TaskId, uses: nat)
        requires
            0 < uses < 65535,
            identity::task_of(stale) matches Some((slot, generation)) && self.sched@.task(
                slot,
            ).identity_generation == reservation::later_generation(generation, uses),
        ensures
            self.task_slot(stale) is None,
    {
        let (slot, generation) = identity::task_of(stale)->0;
        reservation::law_generation_returns_last(generation, uses);
    }

    /// Stack bytes of a task that asks for `requested`.
    pub open spec fn stack_bytes(self, requested: usize) -> usize {
        let minimum = self.start->0.config.minimum_stack_size@;
        if requested < minimum {
            minimum
        } else {
            requested
        }
    }

    /// Where the stack of a task comes from. A reservation that is not live or promises
    /// nothing any more provides none; it is refused only once there is a stack.
    pub open spec fn stack_origin(
        self,
        reservation: Option<TaskReservation>,
        requested: usize,
    ) -> Result<StackSource, DriverError> {
        let size = self.stack_bytes(requested);
        match reservation {
            Some(token) => match self.sched@.reservations.resolved(token) {
                Some(entry) => {
                    let e = self.sched@.reservations.entries@[entry];
                    if e.remaining == 0 || e.stack_count == 0 {
                        Ok(StackSource::Fresh(size))
                    } else if size > e.stack_size {
                        Err(DriverError::ResourceExhausted)
                    } else {
                        Ok(StackSource::Reserved(e.stack_size))
                    }
                },
                None => Ok(StackSource::Fresh(size)),
            },
            None => Ok(StackSource::Fresh(size)),
        }
    }

    /// The slot that a task would be given, and the stack that comes with it.
    pub open spec fn slot_origin(self, reservation: Option<TaskReservation>) -> Result<
        (usize, Option<reservation::ReservedStack>),
        DriverError,
    > {
        match reservation {
            Some(token) => self.sched@.reserved_allocation(token),
            None => match self.sched@.allocation(self.capacity()) {
                Ok(slot) => Ok((slot, None)),
                Err(error) => Err(error),
            },
        }
    }

    /// The scheduler once that slot has been taken.
    pub open spec fn slot_taken(self, reservation: Option<TaskReservation>) -> SchedModel {
        match reservation {
            Some(token) => self.sched@.reservation_used(token),
            None => self.sched@,
        }
    }

    /// What a request for a task leads to when `stack` has been allocated for it, or was
    /// not available and is zero.
    pub open spec fn spawns(
        self,
        after: Kernel,
        request: SpawnRequest,
        reservation: Option<TaskReservation>,
        stack: usize,
        now: u64,
        outcome: SpawnOutcome,
    ) -> bool {
        match (self.stack_origin(reservation, request.stack_size), self.slot_origin(reservation)) {
            (Err(error), _) => {
                &&& outcome.result == Err::<TaskId, _>(error)
                &&& outcome.release == stack
                &&& after.sched@ == self.sched@
            },
            (Ok(StackSource::Fresh(size)), origin) => if stack == 0 {
                &&& outcome.result == Err::<TaskId, _>(DriverError::ResourceExhausted)
                &&& outcome.release == 0
                &&& after.sched@ == self.sched@
            } else {
                match origin {
                    Ok((slot, _)) => {
                        &&& outcome.result == Ok::<_, DriverError>(
                            identity::task_id(slot, after.sched@.task(slot).identity_generation)->0,
                        )
                        &&& outcome.release == 0
                        &&& after.sched@ == self.slot_taken(reservation).spawned(
                            slot,
                            request,
                            stack,
                            size,
                            now,
                            self.ported(),
                        )
                    },
                    Err(error) => {
                        &&& outcome.result == Err::<TaskId, _>(error)
                        &&& outcome.release == stack
                        &&& after.sched@ == self.sched@
                    },
                }
            },
            (Ok(StackSource::Reserved(size)), Ok((slot, Some(reserved)))) => {
                &&& outcome.result == Ok::<_, DriverError>(
                    identity::task_id(slot, after.sched@.task(slot).identity_generation)->0,
                )
                &&& outcome.release == stack
                &&& after.sched@ == self.slot_taken(reservation).spawned(
                    slot,
                    request,
                    reserved.pointer,
                    reserved.size,
                    now,
                    self.ported(),
                )
            },
            (Ok(StackSource::Reserved(size)), Ok((slot, None))) => false,
            (Ok(StackSource::Reserved(size)), Err(error)) => {
                &&& outcome.result == Err::<TaskId, _>(error)
                &&& outcome.release == stack
                &&& after.sched@ == self.sched@
            },
        }
    }

    /// Every stack that the task could be given is usable.
    pub open spec fn stacks_usable(
        self,
        request: SpawnRequest,
        reservation: Option<TaskReservation>,
        stack: usize,
    ) -> bool {
        &&& stack != 0 ==> stack_usable(
            stack,
            self.stack_bytes(request.stack_size),
            self.ported(),
        )
        &&& self.slot_origin(reservation) matches Ok((slot, Some(reserved))) ==> stack_usable(
            reserved.pointer,
            reserved.size,
            self.ported(),
        )
    }

    /// The run policy of a new task: the requested one, if the runtime can provide it, or
    /// the default of radio tasks when none is requested.
    pub fn spawn_policy(&self, requested: Option<TaskExecutionPolicy>) -> (r: Result<
        RunPolicy,
        DriverError,
    >)
        requires
            self.start is Some,
        ensures
            match requested {
                Some(policy) => policy_mapped(policy, self.ported(), r),
                None => r == Ok::<_, DriverError>(self.start->0.config.radio_task_policy),
            },
    {
        match requested {
            Some(policy) => map_execution_policy(policy, self.is_ported()),
            None => match self.start {
                Some(state) => Ok(state.config.radio_task_policy),
                None => Err(DriverError::Runtime),
            },
        }
    }

    /// Where the stack of a task comes from: a reservation that holds stacks provides
    /// it, if it is large enough; otherwise it must be allocated.
    pub fn stack_source(
        &self,
        reservation: Option<TaskReservation>,
        requested: usize,
    ) -> (r: Result<StackSource, DriverError>)
        requires
            self.wf(),
            self.start is Some,
        ensures
            r == self.stack_origin(reservation, requested),
    {
        let minimum: usize = match self.start {
            Some(state) => state.config.minimum_stack_size.get(),
            None => 0,
        };
        let size: usize = if requested < minimum {
            minimum
        } else {
            requested
        };
        match reservation {
            Some(token) => {
                if self.sched.reservations.ensure_consumable(&token).is_err() {
                    return Ok(StackSource::Fresh(size));
                }
                match self.sched.reservation_stack_size(&token) {
                    Ok(Some(reserved)) => {
                        if size > reserved {
                            Err(DriverError::ResourceExhausted)
                        } else {
                            Ok(StackSource::Reserved(reserved))
                        }
                    },
                    _ => Ok(StackSource::Fresh(size)),
                }
            },
            None => Ok(StackSource::Fresh(size)),
        }
    }

    fn take_slot(&mut self, reservation: Option<TaskReservation>) -> (r: Result<
        (usize, Option<reservation::ReservedStack>),
        DriverError,
    >)
        requires
            old(self).wf(),
            old(self).sched@.coherent(),
        ensures
            final(self).wf(),
            final(self).sched@.coherent(),
            final(self).same_shell(*old(self)),
            r == old(self).slot_origin(reservation),
            final(self).sched@ == (if r is Ok {
                old(self).slot_taken(reservation)
            } else {
                old(self).sched@
            }),
            r is Ok ==> (r->Ok_0).0 < TASK_SLOT_COUNT && final(self).sched@.task(
                (r->Ok_0).0,
            ).state == State::Free,
    {
        let ghost m0 = self.sched@;
        let capacity: usize = self.dynamic_capacity();
        match reservation {
            Some(token) => {
                let taken = self.sched.alloc_reserved_dynamic_slot(&token);
                proof {
                    m0.lemma_coherent_frame(self.sched@);
                    m0.lemma_free_slot(m0.first_dynamic());
                }
                taken
            },
            None => {
                proof {
                    m0.lemma_free_slot(m0.first_dynamic());
                }
                match self.sched.alloc_dynamic_slot_with_capacity(capacity) {
                    Ok(slot) => Ok((slot, None)),
                    Err(error) => Err(error),
                }
            },
        }
    }

    /// Creates a task. `stack` is a stack allocated for it, or zero when there was no
    /// memory or when the reservation provides the stack.
    pub fn spawn(
        &mut self,
        request: SpawnRequest,
        reservation: Option<TaskReservation>,
        stack: usize,
        now: u64,
    ) -> (r: SpawnOutcome)
        requires
            old(self).wf(),
            old(self).sched@.coherent(),
            old(self).start is Some,
            request.priority < 32,
            old(self).stacks_usable(request, reservation, stack),
        ensures
            final(self).wf(),
            final(self).sched@.coherent(),
            final(self).same_shell(*old(self)),
            old(self).spawns(*final(self), request, reservation, stack, now, r),
    {
        let source = match self.stack_source(reservation, request.stack_size) {
            Ok(source) => source,
            Err(error) => {
                return SpawnOutcome { result: Err(error), release: stack };
            },
        };
        if let StackSource::Fresh(_) = source {
            if stack == 0 {
                return SpawnOutcome { result: Err(DriverError::ResourceExhausted), release: 0 };
            }
        }
        let (slot, reserved) = match self.take_slot(reservation) {
            Ok(pair) => pair,
            Err(error) => {
                return SpawnOutcome { result: Err(error), release: stack };
            },
        };
        let (pointer, size, release): (usize, usize, usize) = match source {
            StackSource::Fresh(size) => (stack, size, 0),
            StackSource::Reserved(size) => match reserved {
                Some(held) => (held.pointer, held.size, stack),
                None => (stack, size, 0),
            },
        };
        let ported = self.is_ported();
        self.sched.spawn_in_slot(slot, request, pointer, size, now, ported);
        assert(self.sched@.tasks[slot as int] == self.sched.tasks@[slot as int].unlinked());
        let generation: u16 = self.sched.tasks[slot].identity_generation;
        SpawnOutcome { result: encode_task_id(slot, generation), release }
    }

    /// Creates a task on a stack from `allocator`, unless its reservation provides one.
    /// Whether the allocator has memory left decides between the outcomes.
    pub fn spawn_from<A: BlockAllocator>(
        &mut self,
        allocator: &mut A,
        request: SpawnRequest,
        reservation: Option<TaskReservation>,
        now: u64,
    ) -> (r: SpawnOutcome)
        requires
            old(self).wf(),
            old(self).sched@.coherent(),
            old(self).start is Some,
            request.priority < 32,
            old(self).ported() ==> old(self).stack_bytes(request.stack_size) >= TASK_CONTEXT_BYTES,
            old(self).stacks_usable(request, reservation, 0),
        ensures
            final(self).wf(),
            final(self).sched@.coherent(),
            final(self).same_shell(*old(self)),
            exists|stack: usize|
                {
                    &&& #[trigger] old(self).spawns(
                        *final(self),
                        request,
                        reservation,
                        stack,
                        now,
                        r,
                    )
                    &&& match old(self).stack_origin(reservation, request.stack_size) {
                        Ok(StackSource::Fresh(size)) => final(allocator).log() == old(
                            allocator,
                        ).log().push(BlockCall::Allocate { size, address: stack }),
                        _ => stack == 0 && final(allocator).log() == old(allocator).log(),
                    }
                },
    {
        let stack: usize = match self.stack_source(reservation, request.stack_size) {
            Ok(StackSource::Fresh(size)) => allocator.allocate_block(size),
            _ => 0,
        };
        assert(stack != 0 ==> stack_usable(
            stack,
            self.stack_bytes(request.stack_size),
            self.ported(),
        ));
        let ghost before = *self;
        let outcome = self.spawn(request, reservation, stack, now);
        assert(before.spawns(*self, request, reservation, stack, now, outcome));
        outcome
    }

    // ---- Giving way ----------------------------------------------------------
    /// Gives way to another ready task.
    pub fn yield_now(&mut self, machine_interrupts_enabled: bool, now: u64) -> (r: Result<
        Option<SwitchIntent>,
        DriverError,
    >)
        requires
            old(self).wf(),
            old(self).sched@.coherent(),
            old(self).start is Some,
            old(self).in_thread(),
        ensures
            final(self).wf(),
            final(self).sched@.coherent(),
            final(self).same_shell(*old(self)),
            (final(self).sched@, r) == old(self).sched@.yield_request(
                old(self).delivers(machine_interrupts_enabled),
                now,
            ),
    {
        match self.ensure_switch_delivery(machine_interrupts_enabled) {
            Ok(_) => {},
            Err(error) => {
                return Err(error);
            },
        }
        let ghost m0 = self.sched@;
        proof {
            m0.lemma_yield_reservations(now);
        }
        match self.sched.yield_current(now) {
            Ok(Some((current, next))) => Ok(
                Some(self.sched.prepare_switch_intent(current, next)),
            ),
            Ok(None) => Ok(None),
            Err(error) => Err(error),
        }
    }

    /// Puts the calling task to sleep for `milliseconds`.
    pub fn sleep_ms(
        &mut self,
        milliseconds: u32,
        machine_interrupts_enabled: bool,
        now: u64,
    ) -> (r: Result<SleepStep, DriverError>)
        requires
            old(self).wf(),
            old(self).sched@.coherent(),
            old(self).start is Some,
            old(self).in_thread(),
        ensures
            final(self).wf(),
            final(self).sched@.coherent(),
            final(self).same_shell(*old(self)),
            (final(self).sched@, r) == old(self).sched@.sleep_request(
                milliseconds,
                old(self).delivers(machine_interrupts_enabled),
                now,
            ),
    {
        if milliseconds == 0 {
            return match self.yield_now(machine_interrupts_enabled, now) {
                Ok(switch) => Ok(SleepStep::Yielded(switch)),
                Err(error) => Err(error),
            };
        }
        match self.ensure_switch_delivery(machine_interrupts_enabled) {
            Ok(_) => {},
            Err(error) => {
                return Err(error);
            },
        }
        let wake_at: u64 = now.saturating_add(milliseconds as u64);
        match self.sched.sleep_current(wake_at) {
            Ok(slot) => Ok(SleepStep::Asleep(slot)),
            Err(error) => Err(error),
        }
    }

    /// Ends the calling task and returns its slot; another task must be chosen.
    pub fn task_exit(&mut self, machine_interrupts_enabled: bool) -> (r: usize)
        requires
            old(self).wf(),
            old(self).sched@.coherent(),
            old(self).start is Some,
            old(self).delivers(machine_interrupts_enabled),
            old(self).in_thread(),
            old(self).sched@.task(old(self).sched@.current).scheduler_lock_depth == 0,
            !old(self).sched@.is_idle(old(self).sched@.current),
            old(self).sched@.retired.len() < TASK_SLOT_COUNT,
        ensures
            final(self).wf(),
            old(self).sched@.owes_nobody(old(self).sched@.current)
                ==> final(self).sched@.coherent(),
            final(self).same_shell(*old(self)),
            r == old(self).sched@.current,
            final(self).sched@ == old(self).sched@.exited(),
    {
        self.sched.exit_current()
    }

    /// The identity of the running task.
    pub fn current_task(&self) -> (r: Result<TaskId, DriverError>)
        requires
            self.wf(),
        ensures
            r == (match identity::task_id(
                self.sched@.current,
                self.sched@.task(self.sched@.current).identity_generation,
            ) {
                Some(id) => Ok::<TaskId, DriverError>(id),
                None => Err(DriverError::InvalidHandle),
            }),
    {
        let current: usize = self.sched.current;
        assert(self.sched@.tasks[current as int] == self.sched.tasks@[current as int].unlinked());
        encode_task_id(current, self.sched.tasks[current].identity_generation)
    }

    // ---- Other tasks -----------------------------------------------------------
    /// Finds the slot of the live task that an identity names.
    pub fn find_task(&self, task: TaskId) -> (r: Result<usize, DriverError>)
        requires
            self.wf(),
        ensures
            r == (match self.task_slot(task) {
                Some(slot) => Ok::<usize, DriverError>(slot),
                None => Err(DriverError::InvalidHandle),
            }),
            r is Ok ==> r->Ok_0 < TASK_SLOT_COUNT,
    {
        let (slot, generation) = match decode_task_id(task) {
            Ok(pair) => pair,
            Err(error) => {
                return Err(error);
            },
        };
        assert(self.sched@.tasks[slot as int] == self.sched.tasks@[slot as int].unlinked());
        if self.sched.tasks[slot].state == State::Free
            || self.sched.tasks[slot].identity_generation != generation {
            return Err(DriverError::InvalidHandle);
        }
        Ok(slot)
    }

    fn find_configurable(&self, task: TaskId) -> (r: Result<usize, DriverError>)
        requires
            self.wf(),
        ensures
            r == (match self.configurable_slot(task) {
                Some(slot) => Ok::<usize, DriverError>(slot),
                None => Err(DriverError::InvalidHandle),
            }),
            r is Ok ==> r->Ok_0 < TASK_SLOT_COUNT,
    {
        match self.find_task(task) {
            Ok(slot) => if self.sched.is_idle_slot(slot) {
                Err(DriverError::InvalidHandle)
            } else {
                Ok(slot)
            },
            Err(error) => Err(error),
        }
    }

    /// Changes the base priority of a live task. The idle thread keeps its own.
    pub fn set_task_priority(&mut self, task: TaskId, priority: u8) -> (r: Result<(), DriverError>)
        requires
            old(self).wf(),
            old(self).sched@.coherent(),
            priority < 32,
        ensures
            final(self).wf(),
            final(self).sched@.coherent(),
            final(self).same_shell(*old(self)),
            match old(self).configurable_slot(task) {
                Some(slot) => r is Ok && final(self).sched@ == old(self).sched@.base_priority_set(
                    slot,
                    priority,
                ),
                None => {
                    &&& r == Err::<(), _>(DriverError::InvalidHandle)
                    &&& final(self).sched@ == old(self).sched@
                },
            },
    {
        let slot: usize = match self.find_configurable(task) {
            Ok(slot) => slot,
            Err(error) => {
                return Err(error);
            },
        };
        proof {
            self.sched@.lemma_base_priority_set(slot, priority);
        }
        self.sched.set_base_priority(slot, priority);
        Ok(())
    }

    fn set_run_policy(&mut self, task: TaskId, policy: RunPolicy, now: u64) -> (r: Result<
        (),
        DriverError,
    >)
        requires
            old(self).wf(),
            old(self).sched@.coherent(),
        ensures
            final(self).wf(),
            final(self).sched@.coherent(),
            final(self).same_shell(*old(self)),
            match old(self).configurable_slot(task) {
                Some(slot) => r is Ok && final(self).sched@ == old(self).sched@.with_run_policy(
                    slot,
                    policy,
                    now,
                ),
                None => {
                    &&& r == Err::<(), _>(DriverError::InvalidHandle)
                    &&& final(self).sched@ == old(self).sched@
                },
            },
    {
        let slot: usize = match self.find_configurable(task) {
            Ok(slot) => slot,
            Err(error) => {
                return Err(error);
            },
        };
        self.sched.set_run_policy(slot, policy, now);
        Ok(())
    }

    /// Cancels what a live task waits for, or has been granted without having noticed. A
    /// cancellation calls for a scheduling point. Not allowed in an interrupt.
    pub fn cancel_wait(&mut self, task: TaskId, now: u64) -> (r: Result<
        WaitCancellationOutcome,
        DriverError,
    >)
        requires
            old(self).wf(),
            old(self).sched@.coherent(),
            old(self).task_slot(task) matches Some(slot) ==> {
                old(self).interrupt_depth == 0 && old(self).sched@.task(slot).granted_sem != 0
                    ==> old(self).sched@.sem_releasable(old(self).sched@.task(slot).granted_sem - 1)
            },
        ensures
            final(self).wf(),
            final(self).sched@.coherent(),
            final(self).same_shell(*old(self)),
            if identity::task_of(task) is None {
                &&& r == Err::<WaitCancellationOutcome, _>(DriverError::InvalidHandle)
                &&& final(self).sched@ == old(self).sched@
            } else if old(self).interrupt_depth != 0 {
                &&& r == Err::<WaitCancellationOutcome, _>(DriverError::InvalidContext)
                &&& final(self).sched@ == old(self).sched@
            } else {
                match old(self).task_slot(task) {
                    Some(slot) => {
                        &&& r is Ok
                        &&& (final(self).sched@, r->Ok_0) == old(self).sched@.wait_cancelled(
                            slot,
                            now,
                        )
                    },
                    None => {
                        &&& r == Err::<WaitCancellationOutcome, _>(DriverError::InvalidHandle)
                        &&& final(self).sched@ == old(self).sched@
                    },
                }
            },
    {
        match decode_task_id(task) {
            Ok(_) => {},
            Err(error) => {
                return Err(error);
            },
        }
        if self.interrupt_depth != 0 {
            return Err(DriverError::InvalidContext);
        }
        let slot: usize = match self.find_task(task) {
            Ok(slot) => slot,
            Err(error) => {
                return Err(error);
            },
        };
        proof {
            self.sched@.lemma_wait_cancelled_stirred(slot, now);
        }
        Ok(self.sched.cancel_wait_locked(slot, now))
    }

    // ---- Scheduler lock ----------------------------------------------------------
    /// Keeps the calling task from being switched away from. Afterwards the timer must be
    /// programmed anew.
    pub fn lock_scheduler(&mut self, machine_interrupts_enabled: bool, now: u64) -> (r: Result<
        (),
        DriverError,
    >)
        requires
            old(self).wf(),
            old(self).sched@.coherent(),
            old(self).start is Some,
        ensures
            final(self).wf(),
            final(self).sched@.coherent(),
            final(self).same_shell(*old(self)),
            if !old(self).delivers(machine_interrupts_enabled) {
                r == Err::<(), _>(DriverError::InvalidContext) && final(self).sched@ == old(
                    self).sched@
            } else if old(self).sched@.task(old(self).sched@.current).scheduler_lock_depth
                == u16::MAX {
                r == Err::<(), _>(DriverError::Runtime) && final(self).sched@ == old(self).sched@
            } else {
                r is Ok && final(self).sched@ == old(self).sched@.locked(now)
            },
    {
        match self.ensure_switch_delivery(machine_interrupts_enabled) {
            Ok(_) => {},
            Err(error) => {
                return Err(error);
            },
        }
        self.sched.lock_current(now)
    }

    /// Releases the scheduler lock once; the last release may call for a switch.
    pub fn unlock_scheduler(&mut self, machine_interrupts_enabled: bool, now: u64) -> (r: Result<
        Option<SwitchIntent>,
        DriverError,
    >)
        requires
            old(self).wf(),
            old(self).sched@.coherent(),
            old(self).start is Some,
            old(self).in_thread(),
        ensures
            final(self).wf(),
            final(self).sched@.coherent(),
            final(self).same_shell(*old(self)),
            (final(self).sched@, r) == old(self).sched@.unlock_request(
                old(self).delivers(machine_interrupts_enabled),
                now,
            ),
    {
        match self.ensure_switch_delivery(machine_interrupts_enabled) {
            Ok(_) => {},
            Err(error) => {
                return Err(error);
            },
        }
        match self.sched.unlock_current_and_take_preemption(now) {
            Ok(Some((current, next))) => Ok(
                Some(self.sched.prepare_switch_intent(current, next)),
            ),
            Ok(None) => Ok(None),
            Err(error) => Err(error),
        }
    }
}

impl RuntimeHandle<Ported> {
    /// Changes a live task's run policy. Afterwards the timer must be programmed anew.
    ///
    /// The identity includes a generation, so one retained after the task's exit cannot
    /// change a later task that reuses the same slot. The idle thread keeps its policy.
    pub fn set_task_run_policy(
        &self,
        kernel: &mut Kernel,
        task: TaskId,
        policy: RunPolicy,
        now: u64,
    ) -> (r: Result<(), DriverError>)
        requires
            old(kernel).wf(),
            old(kernel).sched@.coherent(),
        ensures
            final(kernel).wf(),
            final(kernel).sched@.coherent(),
            final(kernel).same_shell(*old(kernel)),
            match old(kernel).configurable_slot(task) {
                Some(slot) => r is Ok && final(kernel).sched@
                    == old(kernel).sched@.with_run_policy(slot, policy, now),
                None => {
                    &&& r == Err::<(), _>(DriverError::InvalidHandle)
                    &&& final(kernel).sched@ == old(kernel).sched@
                },
            },
    {
        kernel.set_run_policy(task, policy, now)
    }
}

impl SchedModel {
    /// A request to yield: refused, or carried out and turned into a switch request.
    pub open spec fn yield_request(self, delivery: bool, now: u64) -> (
        SchedModel,
        Result<Option<SwitchIntent>, DriverError>,
    ) {
        if !delivery || self.task(self.current).scheduler_lock_depth != 0 {
            (self, Err(DriverError::InvalidContext))
        } else {
            let (m, next) = self.yield_step(now);
            match next {
                Some(target) => (m.intent_counted(), Ok(Some(m.intent(self.current, target)))),
                None => (m, Ok(None)),
            }
        }
    }

    /// A request to sleep.
    pub open spec fn sleep_request(self, milliseconds: u32, delivery: bool, now: u64) -> (
        SchedModel,
        Result<SleepStep, DriverError>,
    ) {
        if milliseconds == 0 {
            let (m, r) = self.yield_request(delivery, now);
            (
                m,
                match r {
                    Ok(switch) => Ok(SleepStep::Yielded(switch)),
                    Err(error) => Err(error),
                },
            )
        } else if !delivery || self.task(self.current).scheduler_lock_depth != 0 {
            (self, Err(DriverError::InvalidContext))
        } else {
            (
                self.slept(scheduling::clock_add(now as int, milliseconds as int)),
                Ok(SleepStep::Asleep(self.current)),
            )
        }
    }

    /// A request to release the scheduler lock once.
    pub open spec fn unlock_request(self, delivery: bool, now: u64) -> (
        SchedModel,
        Result<Option<SwitchIntent>, DriverError>,
    ) {
        if !delivery || self.task(self.current).scheduler_lock_depth == 0 {
            (self, Err(DriverError::InvalidContext))
        } else {
            let (m, target) = self.unlocked(now).after_unlock(now);
            match target {
                Some((source, next)) => (m.intent_counted(), Ok(Some(m.intent(source, next)))),
                None => (m, Ok(None)),
            }
        }
    }

    proof fn lemma_yield_reservations(self, now: u64)
        requires
            self.coherent(),
        ensures
            self.yield_step(now).0.reservations == self.reservations,
    {
        let m = self.with_diagnostics(
            Diagnostics {
                yields: metrics::bumped(self.diagnostics.yields),
                ..self.diagnostics
            },
        );
        self.lemma_coherent_frame(m);
        m.lemma_all_woken_stirred(now);
    }

    /// A free slot that is found is a task slot, and free.
    proof fn lemma_free_slot(self, slot: usize)
        ensures
            match self.free_from(slot) {
                Some(found) => slot <= found < TASK_SLOT_COUNT && self.task(found).state
                    == State::Free,
                None => true,
            },
        decreases 17 - slot,
    {
        if slot < 17 && self.task(slot).state != State::Free {
            self.lemma_free_slot((slot + 1) as usize);
        }
    }
}

} // verus!
