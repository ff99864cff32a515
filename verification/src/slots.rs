//! Fresh schedulers and the allocation of dynamic task slots.
use vstd::prelude::*;
use crate::config::{Diagnostics, SchedulingPolicy, DYNAMIC_TASK_CAPACITY, NIL, TASK_SLOT_COUNT};
use crate::donation;
use crate::error::{DriverError, TaskAdmissionError, TaskReservation};
use crate::links;
use crate::model::SchedModel;
use crate::nonzero::{NonZeroU32, NonZeroUsize};
use crate::reservation;
use crate::reservation::{ReleasedTaskResources, ReservationTable, ReservedStack};
use crate::scheduler::{MutexState, Sched, SemState};
use crate::task::{State, Tcb};

verus! {

impl SchedModel {
    /// A scheduler that has not started: every slot is free, nothing is queued and
    /// no object is in use.
    pub open spec fn initial(
        policy: Option<SchedulingPolicy>,
        time_slice: Option<NonZeroU32>,
    ) -> SchedModel {
        SchedModel {
            tasks: Seq::new(17, |i: int| Tcb::blank()),
            queues: Seq::new(96, |q: int| Seq::empty()),
            sem_counts: Seq::new(32, |s: int| 0i32),
            mutex_owner: Seq::new(32, |x: int| NIL),
            mutex_depth: Seq::new(32, |x: int| 0u32),
            current: 0,
            retired: Seq::empty(),
            slot_generations: Seq::new(17, |i: int| 0u16),
            time_slice_pending: false,
            time_slice_deadline: 0,
            pending_switch: None,
            started: false,
            diagnostics: Diagnostics::initial(),
            reservations: ReservationTable::blank(),
            policy,
            time_slice,
        }
    }

    /// The first slot that applications can be given.
    pub open spec fn first_dynamic(self) -> usize {
        if self.policy is None {
            2
        } else {
            1
        }
    }

    /// The number of live tasks in dynamic slots.
    pub open spec fn dynamic_used(self) -> nat {
        donation::count(
            |slot: usize| slot >= self.first_dynamic() && self.task(slot).state != State::Free,
            17,
        )
    }

    /// The first free slot from `slot` on.
    pub open spec fn free_from(self, slot: usize) -> Option<usize>
        decreases 17 - slot,
    {
        if slot >= 17 {
            None
        } else if self.task(slot).state == State::Free {
            Some(slot)
        } else {
            self.free_from((slot + 1) as usize)
        }
    }

    /// Dynamic slots that are neither live nor promised, out of `capacity`.
    pub open spec fn dynamic_available(self, capacity: usize) -> usize {
        let taken = self.dynamic_used() + self.reservations.total_remaining;
        if taken >= capacity {
            0
        } else {
            (capacity - taken) as usize
        }
    }

    /// The slot that an ordinary task would be given.
    pub open spec fn allocation(self, capacity: usize) -> Result<usize, DriverError> {
        if self.dynamic_available(capacity) == 0 {
            Err(DriverError::NoTaskSlots)
        } else {
            match self.free_from(self.first_dynamic()) {
                Some(slot) => Ok(slot),
                None => Err(DriverError::NoTaskSlots),
            }
        }
    }

    pub open spec fn with_reservations(self, reservations: ReservationTable) -> SchedModel {
        SchedModel { reservations, ..self }
    }

    /// The slot and stack that a task of `reservation` would be given.
    pub open spec fn reserved_allocation(self, reservation: TaskReservation) -> Result<
        (usize, Option<ReservedStack>),
        DriverError,
    > {
        match self.reservations.resolved(reservation) {
            Some(entry) => {
                let e = self.reservations.entries@[entry];
                if e.remaining == 0 {
                    Err(DriverError::NoTaskSlots)
                } else {
                    match self.free_from(self.first_dynamic()) {
                        Some(slot) => Ok(
                            (
                                slot,
                                if e.stack_count == 0 {
                                    None
                                } else {
                                    Some(
                                        ReservedStack {
                                            pointer: e.stacks@[e.next_stack as int],
                                            size: e.stack_size,
                                        },
                                    )
                                },
                            ),
                        ),
                        None => Err(DriverError::NoTaskSlots),
                    }
                }
            },
            None => Err(DriverError::InvalidHandle),
        }
    }

    /// The scheduler after a task of `reservation` was given its slot.
    pub open spec fn reservation_used(self, reservation: TaskReservation) -> SchedModel {
        if self.reserved_allocation(reservation) is Ok {
            self.with_reservations(
                self.reservations.consumed(self.reservations.resolved(reservation)->0),
            )
        } else {
            self
        }
    }

    /// A fresh scheduler has every property that the operations keep.
    pub proof fn law_initial_is_coherent(
        policy: Option<SchedulingPolicy>,
        time_slice: Option<NonZeroU32>,
    )
        ensures
            SchedModel::initial(policy, time_slice).coherent(),
            SchedModel::initial(policy, time_slice).tidy(),
    {
        let m = SchedModel::initial(policy, time_slice);
        assert forall|owner: usize, level: u8| owner < TASK_SLOT_COUNT && level < 32 implies
            #[trigger] m.donations(owner, level) == m.donors(owner, level) by {
            m.lemma_no_donors(owner, level, 17);
        }
        assert forall|slot: usize| slot < TASK_SLOT_COUNT implies #[trigger] m.chain_live(
            slot,
            TASK_SLOT_COUNT as nat,
        ) by {
            assert(m.task(slot).waiting_mutex == 0);
        }
        assert forall|slot: usize| slot < TASK_SLOT_COUNT implies #[trigger] m.settled(slot) by {
            assert(m.task(slot) == Tcb::blank());
            m.task(slot).lemma_no_donation(0);
        }
    }

    proof fn lemma_no_donors(self, owner: usize, level: u8, n: nat)
        requires
            n <= 17,
            forall|slot: usize| slot < 17 ==> !self.donates(slot, owner, level),
        ensures
            donation::count(|slot: usize| self.donates(slot, owner, level), n) == 0,
        decreases n,
    {
        if n > 0 {
            self.lemma_no_donors(owner, level, (n - 1) as nat);
        }
    }
}

impl Sched {
    /// A scheduler whose tasks carry their own policies.
    pub fn new() -> (r: Self)
        ensures
            r.wf(),
            r.reservations.wf(),
            r@ == SchedModel::initial(None, None),
    {
        Sched::build(None, None)
    }

    /// A scheduler under one firmware-wide policy.
    pub fn with_policy(policy: SchedulingPolicy, time_slice: Option<NonZeroU32>) -> (r: Self)
        ensures
            r.wf(),
            r.reservations.wf(),
            r@ == SchedModel::initial(Some(policy), time_slice),
    {
        Sched::build(Some(policy), time_slice)
    }

    fn build(policy: Option<SchedulingPolicy>, time_slice: Option<NonZeroU32>) -> (r: Self)
        ensures
            r.wf(),
            r.reservations.wf(),
            r@ == SchedModel::initial(policy, time_slice),
    {
        let r = Sched {
            tasks: [Tcb::empty();17],
            current: 0,
            ready_head: [NIL;32],
            ready_tail: [NIL;32],
            sems: [SemState::new(0);32],
            mutexes: [MutexState::new();32],
            retired_stacks: [0;17],
            retired_count: 0,
            slot_generations: [0;17],
            time_slice_pending: false,
            time_slice_deadline: 0,
            pending_switch: None,
            started: false,
            diagnostics: Diagnostics::empty(),
            reservations: ReservationTable::new(),
            policy,
            time_slice,
        };
        proof {
            let l = r.linkage();
            assert forall|q: int| 0 <= q < 96 implies l.head(q) == NIL && l.tail(q) == NIL
                && #[trigger] l.list(q) == Seq::<usize>::empty() by {
                links::lemma_list_is_chain(l.tasks@, l.head(q), l.tail(q), Seq::empty());
            }
            assert(r@ =~= SchedModel::initial(policy, time_slice));
            assert(r@.queues =~= SchedModel::initial(policy, time_slice).queues);
        }
        r
    }

    fn first_dynamic_slot(&self) -> (r: usize)
        ensures
            r == self@.first_dynamic(),
    {
        match self.policy {
            None => 2,
            Some(_) => 1,
        }
    }

    fn first_free_dynamic_slot(&self) -> (r: Option<usize>)
        requires
            self.wf(),
        ensures
            r == self@.free_from(self@.first_dynamic()),
            r is Some ==> self@.first_dynamic() <= r->0 < TASK_SLOT_COUNT,
    {
        let mut slot: usize = self.first_dynamic_slot();
        while slot < TASK_SLOT_COUNT
            invariant
                self.wf(),
                self@.first_dynamic() <= slot <= TASK_SLOT_COUNT,
                self@.free_from(self@.first_dynamic()) == self@.free_from(slot),
            decreases TASK_SLOT_COUNT - slot,
        {
            assert(self@.tasks[slot as int] == self.tasks@[slot as int].unlinked());
            if self.tasks[slot].state == State::Free {
                return Some(slot);
            }
            slot = slot + 1;
        }
        None
    }

    /// The number of live tasks in dynamic slots.
    pub(crate) fn count_dynamic_used(&self) -> (r: usize)
        requires
            self.wf(),
        ensures
            r == self@.dynamic_used(),
            r <= TASK_SLOT_COUNT,
    {
        let first: usize = self.first_dynamic_slot();
        let ghost live = |slot: usize|
            slot >= self@.first_dynamic() && self@.task(slot).state != State::Free;
        let mut used: usize = 0;
        let mut slot: usize = 0;
        while slot < TASK_SLOT_COUNT
            invariant
                self.wf(),
                first == self@.first_dynamic(),
                live == (|slot: usize|
                    slot >= self@.first_dynamic() && self@.task(slot).state != State::Free),
                slot <= TASK_SLOT_COUNT,
                used <= slot,
                used == donation::count(live, slot as nat),
            decreases TASK_SLOT_COUNT - slot,
        {
            assert(self@.tasks[slot as int] == self.tasks@[slot as int].unlinked());
            if slot >= first && self.tasks[slot].state != State::Free {
                used = used + 1;
            }
            slot = slot + 1;
        }
        used
    }

    /// Dynamic slots that are neither live nor promised, out of `capacity`.
    pub fn dynamic_slots_available(&self, capacity: usize) -> (r: usize)
        requires
            self.wf(),
            self.reservations.wf(),
        ensures
            r == self@.dynamic_available(capacity),
    {
        let taken: usize = self.count_dynamic_used() + self.reservations.total_remaining();
        if taken >= capacity {
            0
        } else {
            capacity - taken
        }
    }

    /// Finds a dynamic slot for a task without a reservation.
    pub fn alloc_dynamic_slot(&self) -> (r: Result<usize, DriverError>)
        requires
            self.wf(),
            self.reservations.wf(),
        ensures
            r == self@.allocation(DYNAMIC_TASK_CAPACITY),
            r is Ok ==> self@.first_dynamic() <= r->Ok_0 < TASK_SLOT_COUNT,
    {
        self.alloc_dynamic_slot_with_capacity(DYNAMIC_TASK_CAPACITY)
    }

    /// Finds a dynamic slot while fewer than `capacity` are live or promised.
    pub fn alloc_dynamic_slot_with_capacity(&self, capacity: usize) -> (r: Result<
        usize,
        DriverError,
    >)
        requires
            self.wf(),
            self.reservations.wf(),
        ensures
            r == self@.allocation(capacity),
            r is Ok ==> self@.first_dynamic() <= r->Ok_0 < TASK_SLOT_COUNT,
    {
        if self.dynamic_slots_available(capacity) == 0 {
            return Err(DriverError::NoTaskSlots);
        }
        match self.first_free_dynamic_slot() {
            Some(slot) => Ok(slot),
            None => Err(DriverError::NoTaskSlots),
        }
    }

    /// Uses one promised slot, with its stack if the reservation holds stacks.
    pub fn alloc_reserved_dynamic_slot(&mut self, reservation: &TaskReservation) -> (r: Result<
        (usize, Option<ReservedStack>),
        DriverError,
    >)
        requires
            old(self).wf(),
            old(self).reservations.wf(),
        ensures
            final(self).wf(),
            final(self).reservations.wf(),
            r == old(self)@.reserved_allocation(*reservation),
            final(self)@ == old(self)@.reservation_used(*reservation),
            r is Ok ==> old(self)@.first_dynamic() <= (r->Ok_0).0 < TASK_SLOT_COUNT,
    {
        let ghost m0 = self@;
        match self.reservations.ensure_consumable(reservation) {
            Ok(_) => {},
            Err(error) => {
                return Err(error);
            },
        }
        let slot: usize = match self.first_free_dynamic_slot() {
            Some(slot) => slot,
            None => {
                return Err(DriverError::NoTaskSlots);
            },
        };
        match self.reservations.consume(reservation) {
            Ok(stack) => {
                assert(self@ =~= m0.reservation_used(*reservation));
                Ok((slot, stack))
            },
            Err(error) => Err(error),
        }
    }

    /// Sets aside `required` dynamic slots.
    pub fn reserve_dynamic_slots(&mut self, required: NonZeroUsize) -> (r: Result<
        TaskReservation,
        TaskAdmissionError,
    >)
        requires
            old(self).wf(),
            old(self).reservations.wf(),
        ensures
            final(self).wf(),
            final(self).reservations.wf(),
            old(self)@.admits(*final(self), required@, DYNAMIC_TASK_CAPACITY, None, r),
    {
        self.reserve_dynamic_slots_with_capacity(required, DYNAMIC_TASK_CAPACITY)
    }

    /// Sets aside `required` dynamic slots out of `capacity`.
    pub fn reserve_dynamic_slots_with_capacity(
        &mut self,
        required: NonZeroUsize,
        capacity: usize,
    ) -> (r: Result<TaskReservation, TaskAdmissionError>)
        requires
            old(self).wf(),
            old(self).reservations.wf(),
        ensures
            final(self).wf(),
            final(self).reservations.wf(),
            old(self)@.admits(*final(self), required@, capacity, None, r),
    {
        let available: usize = self.dynamic_slots_available(capacity);
        self.reservations.reserve(required, available)
    }

    /// Sets aside dynamic slots out of `capacity`, together with their stacks.
    pub fn reserve_dynamic_stacks_with_capacity(
        &mut self,
        required: NonZeroUsize,
        stack_size: NonZeroUsize,
        stacks: [usize; 15],
        capacity: usize,
    ) -> (r: Result<TaskReservation, TaskAdmissionError>)
        requires
            old(self).wf(),
            old(self).reservations.wf(),
            capacity <= DYNAMIC_TASK_CAPACITY,
        ensures
            final(self).wf(),
            final(self).reservations.wf(),
            old(self)@.admits(*final(self), required@, capacity, Some((stack_size@, stacks)), r),
    {
        let available: usize = self.dynamic_slots_available(capacity);
        self.reservations.reserve_with_stacks(required, stack_size, available, stacks)
    }

    /// Bytes of each stack that a reservation holds, if it holds stacks.
    pub fn reservation_stack_size(&self, reservation: &TaskReservation) -> (r: Result<
        Option<usize>,
        DriverError,
    >)
        ensures
            r == (match self@.reservations.resolved(*reservation) {
                Some(entry) => Ok::<Option<usize>, DriverError>(
                    if self@.reservations.entries@[entry].stack_count != 0 {
                        Some(self@.reservations.entries@[entry].stack_size)
                    } else {
                        None
                    },
                ),
                None => Err(DriverError::InvalidHandle),
            }),
    {
        self.reservations.stack_size(reservation)
    }

    /// Gives up a reservation and returns its unused stacks.
    pub fn release_task_reservation(&mut self, reservation: &TaskReservation) -> (r: Result<
        ReleasedTaskResources,
        DriverError,
    >)
        requires
            old(self).wf(),
            old(self).reservations.wf(),
        ensures
            final(self).wf(),
            final(self).reservations.wf(),
            match old(self)@.reservations.resolved(*reservation) {
                Some(entry) => {
                    let e = old(self)@.reservations.entries@[entry];
                    &&& r is Ok
                    &&& r->Ok_0.count <= 15
                    &&& r->Ok_0@ == reservation::live_stacks(
                        e.stacks@,
                        e.next_stack as int,
                        e.stack_count as int,
                    )
                    &&& final(self)@ == old(self)@.with_reservations(
                        old(self)@.reservations.released(entry),
                    )
                },
                None => {
                    &&& r == Err::<ReleasedTaskResources, _>(DriverError::InvalidHandle)
                    &&& final(self)@ == old(self)@
                },
            },
    {
        self.reservations.release(reservation)
    }
}

impl SchedModel {
    /// `after` and `result` are what asking for `required` slots gives: a refusal that
    /// changes nothing, or a token for a new entry of the reservation table.
    pub open spec fn admits(
        self,
        after: Sched,
        required: usize,
        capacity: usize,
        stacks: Option<(usize, [usize; 15])>,
        result: Result<TaskReservation, TaskAdmissionError>,
    ) -> bool {
        let table = self.reservations;
        match table.refusal(required, self.dynamic_available(capacity)) {
            Some(error) => result == Err::<TaskReservation, _>(error) && after@ == self,
            None => {
                &&& result is Ok
                &&& after@ == self.with_reservations(
                    match stacks {
                        Some((size, pointers)) => table.reserved_with(
                            required as u8,
                            size,
                            pointers,
                        ),
                        None => table.reserved(required as u8),
                    },
                )
                &&& result->Ok_0.raw@ == reservation::token(
                    table.vacancy()->0,
                    reservation::next_generation(
                        table.entries@[table.vacancy()->0].generation,
                    ),
                )
                &&& after.reservations.resolved(result->Ok_0) == table.vacancy()
            },
        }
    }
}

} // verus!
