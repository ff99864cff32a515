//! Generation-bearing reservations of dynamic task slots.
use vstd::prelude::*;
use crate::config::DYNAMIC_TASK_CAPACITY;
use crate::error::{DriverError, TaskAdmissionError, TaskReservation};
use crate::nonzero::{NonZeroU32, NonZeroUsize};

verus! {

/// Reservations that can be outstanding at the same time.
pub const RESERVATION_SLOT_COUNT: usize = 4;

/// One outstanding reservation, or a vacant entry.
#[derive(Clone, Copy)]
pub struct ReservationEntry {
    pub generation: u16,
    pub remaining: u8,
    pub next_stack: u8,
    pub stack_count: u8,
    pub stack_size: usize,
    pub stacks: [usize; 15],
    pub active: bool,
}

impl ReservationEntry {
    /// An entry that has never been used.
    pub open spec fn blank() -> ReservationEntry {
        ReservationEntry {
            generation: 0,
            remaining: 0,
            next_stack: 0,
            stack_count: 0,
            stack_size: 0,
            stacks: [0usize; 15usize],
            active: false,
        }
    }

    /// A vacant entry promises nothing. A live one that holds stacks holds one for
    /// each slot still promised.
    pub open spec fn wf(self) -> bool {
        &&& !self.active ==> self.remaining == 0 && self.stack_count == 0
        &&& self.active ==> self.generation != 0
        &&& self.stack_count <= 15
        &&& self.stack_count == 0 ==> self.next_stack == 0
        &&& self.stack_count != 0 ==> self.next_stack + self.remaining == self.stack_count
    }

    pub fn empty() -> (r: Self)
        ensures
            r == ReservationEntry::blank(),
    {
        ReservationEntry {
            generation: 0,
            remaining: 0,
            next_stack: 0,
            stack_count: 0,
            stack_size: 0,
            stacks: [0;15],
            active: false,
        }
    }
}

/// A preallocated stack handed to a reserved task.
#[derive(Clone, Copy, Debug, Eq, PartialEq, Structural)]
pub struct ReservedStack {
    pub pointer: usize,
    pub size: usize,
}

/// Stacks given back by releasing a reservation.
#[derive(Clone, Copy, Debug, Eq, PartialEq)]
pub struct ReleasedTaskResources {
    pub stacks: [usize; 15],
    pub count: usize,
}

impl ReleasedTaskResources {
    /// The stacks given back, in order.
    pub open spec fn view(self) -> Seq<usize> {
        self.stacks@.take(self.count as int)
    }
}

/// The table of outstanding reservations.
#[derive(Clone, Copy)]
pub struct ReservationTable {
    pub entries: [ReservationEntry; 4],
    pub total_remaining: usize,
}

/// The non-zero words of `stacks[from..to]`, in order.
pub open spec fn live_stacks(stacks: Seq<usize>, from: int, to: int) -> Seq<usize>
    decreases to - from,
{
    if from >= to {
        Seq::empty()
    } else {
        let before = live_stacks(stacks, from, to - 1);
        if stacks[to - 1] != 0 {
            before.push(stacks[to - 1])
        } else {
            before
        }
    }
}

/// The generation that follows `generation`; zero is never used.
pub open spec fn next_generation(generation: u16) -> u16 {
    if generation == u16::MAX {
        1
    } else {
        (generation + 1) as u16
    }
}

/// The generation after `uses` further uses.
pub open spec fn later_generation(generation: u16, uses: nat) -> u16
    decreases uses,
{
    if uses == 0 {
        generation
    } else {
        next_generation(later_generation(generation, (uses - 1) as nat))
    }
}

proof fn lemma_later_generation(generation: u16, uses: nat)
    requires
        generation != 0,
    ensures
        later_generation(generation, uses) == (generation - 1 + uses) % 65535 + 1,
    decreases uses,
{
    if uses > 0 {
        lemma_later_generation(generation, (uses - 1) as nat);
    }
}

/// A generation comes back only after all others have been used.
pub proof fn law_generation_returns_last(generation: u16, uses: nat)
    requires
        generation != 0,
        0 < uses < 65535,
    ensures
        later_generation(generation, uses) != generation,
{
    lemma_later_generation(generation, uses);
}

/// The raw token of entry `slot` in `generation`.
pub open spec fn token(slot: int, generation: u16) -> int {
    generation * 256 + slot + 1
}

pub(crate) fn following_generation(generation: u16) -> (r: u16)
    ensures
        r == next_generation(generation),
        r != 0,
{
    if generation == u16::MAX {
        1
    } else {
        generation + 1
    }
}

impl ReservationTable {
    /// No reservation is outstanding and none ever was.
    pub open spec fn blank() -> ReservationTable {
        ReservationTable { entries: [ReservationEntry::blank(); 4usize], total_remaining: 0 }
    }

    /// Every entry is consistent and the total counts all promised slots.
    pub open spec fn wf(self) -> bool {
        &&& forall|i: int| 0 <= i < 4 ==> (#[trigger] self.entries@[i]).wf()
        &&& self.total_remaining == self.entries@[0].remaining + self.entries@[1].remaining
            + self.entries@[2].remaining + self.entries@[3].remaining
    }

    /// The first vacant entry, if there is one.
    pub open spec fn vacancy(self) -> Option<int> {
        if !self.entries@[0].active {
            Some(0)
        } else if !self.entries@[1].active {
            Some(1)
        } else if !self.entries@[2].active {
            Some(2)
        } else if !self.entries@[3].active {
            Some(3)
        } else {
            None
        }
    }

    /// The live entry that a token names, if there is one.
    pub open spec fn resolved(self, reservation: TaskReservation) -> Option<int> {
        let raw = reservation.raw@ as int;
        let slot = raw % 256 - 1;
        let generation = raw / 256;
        if 0 <= slot < 4 && 0 < generation <= u16::MAX && self.entries@[slot].active
            && self.entries@[slot].generation == generation {
            Some(slot)
        } else {
            None
        }
    }

    /// The table after a successful reservation of `required` slots.
    pub open spec fn reserved(self, required: u8) -> ReservationTable {
        let slot = self.vacancy()->0;
        ReservationTable {
            entries: vstd::array::spec_array_update(
                self.entries,
                slot,
                ReservationEntry {
                    generation: next_generation(self.entries@[slot].generation),
                    remaining: required,
                    next_stack: 0,
                    stack_count: 0,
                    stack_size: 0,
                    stacks: [0usize; 15usize],
                    active: true,
                },
            ),
            total_remaining: (self.total_remaining + required) as usize,
        }
    }

    /// The table after a successful reservation that comes with stacks.
    pub open spec fn reserved_with(
        self,
        required: u8,
        stack_size: usize,
        stacks: [usize; 15],
    ) -> ReservationTable {
        let slot = self.vacancy()->0;
        let plain = self.reserved(required);
        ReservationTable {
            entries: vstd::array::spec_array_update(
                plain.entries,
                slot,
                ReservationEntry {
                    stack_count: required,
                    stack_size,
                    stacks,
                    ..plain.entries@[slot]
                },
            ),
            ..plain
        }
    }

    /// The table after one promised slot of `slot` was used.
    pub open spec fn consumed(self, slot: int) -> ReservationTable {
        let entry = self.entries@[slot];
        let used = if entry.stack_count == 0 {
            entry
        } else {
            ReservationEntry {
                stacks: vstd::array::spec_array_update(entry.stacks, entry.next_stack as int, 0),
                next_stack: (entry.next_stack + 1) as u8,
                ..entry
            }
        };
        ReservationTable {
            entries: vstd::array::spec_array_update(
                self.entries,
                slot,
                ReservationEntry { remaining: (entry.remaining - 1) as u8, ..used },
            ),
            total_remaining: (self.total_remaining - 1) as usize,
        }
    }

    /// The table after entry `slot` was given up.
    pub open spec fn released(self, slot: int) -> ReservationTable {
        let entry = self.entries@[slot];
        ReservationTable {
            entries: vstd::array::spec_array_update(
                self.entries,
                slot,
                ReservationEntry {
                    remaining: 0,
                    next_stack: 0,
                    stack_count: 0,
                    stack_size: 0,
                    stacks: [0usize; 15usize],
                    active: false,
                    ..entry
                },
            ),
            total_remaining: (self.total_remaining - entry.remaining) as usize,
        }
    }

    /// Why `required` slots cannot be reserved while `available` are free.
    pub open spec fn refusal(self, required: usize, available: usize) -> Option<
        TaskAdmissionError,
    > {
        if required > available {
            Some(TaskAdmissionError::InsufficientTaskSlots { required, available })
        } else if self.vacancy() is None || required > u8::MAX {
            Some(TaskAdmissionError::Runtime(DriverError::ResourceExhausted))
        } else {
            None
        }
    }

    pub fn new() -> (r: Self)
        ensures
            r == ReservationTable::blank(),
            r.wf(),
    {
        ReservationTable { entries: [ReservationEntry::empty();4], total_remaining: 0 }
    }

    /// Slots promised by all outstanding reservations.
    pub fn total_remaining(&self) -> (r: usize)
        ensures
            r == self.total_remaining,
    {
        self.total_remaining
    }

    fn first_vacancy(&self) -> (r: Option<usize>)
        ensures
            r is Some <==> self.vacancy() is Some,
            r is Some ==> self.vacancy() == Some(r->0 as int) && r->0 < 4,
    {
        if !self.entries[0].active {
            Some(0)
        } else if !self.entries[1].active {
            Some(1)
        } else if !self.entries[2].active {
            Some(2)
        } else if !self.entries[3].active {
            Some(3)
        } else {
            None
        }
    }

    /// Sets aside `required` of the `available` dynamic slots.
    pub fn reserve(&mut self, required: NonZeroUsize, available: usize) -> (r: Result<
        TaskReservation,
        TaskAdmissionError,
    >)
        requires
            old(self).wf(),
        ensures
            final(self).wf(),
            match old(self).refusal(required@, available) {
                Some(error) => r == Err::<TaskReservation, _>(error) && *final(self) == *old(self),
                None => {
                    &&& r is Ok
                    &&& *final(self) == old(self).reserved(required@ as u8)
                    &&& r->Ok_0.raw@ == token(
                        old(self).vacancy()->0,
                        next_generation(old(self).entries@[old(self).vacancy()->0].generation),
                    )
                    &&& final(self).resolved(r->Ok_0) == old(self).vacancy()
                },
            },
    {
        if required.get() > available {
            return Err(
                TaskAdmissionError::InsufficientTaskSlots { required: required.get(), available },
            );
        }
        let slot: usize = match self.first_vacancy() {
            Some(slot) => slot,
            None => {
                return Err(TaskAdmissionError::Runtime(DriverError::ResourceExhausted));
            },
        };
        if required.get() > u8::MAX as usize {
            return Err(TaskAdmissionError::Runtime(DriverError::ResourceExhausted));
        }
        let remaining: u8 = required.get() as u8;
        let generation: u16 = following_generation(self.entries[slot].generation);
        let ghost before = *self;
        let entry = ReservationEntry {
            generation,
            remaining,
            next_stack: 0,
            stack_count: 0,
            stack_size: 0,
            stacks: [0;15],
            active: true,
        };
        self.entries[slot] = entry;
        self.total_remaining = self.total_remaining + required.get();

        let raw: u32 = (generation as u32) * 256 + (slot as u32) + 1;
        proof {
            assert(before.entries@[slot as int].wf());
            assert(self.entries =~= before.reserved(required@ as u8).entries);
            assert forall|i: int| 0 <= i < 4 implies (#[trigger] self.entries@[i]).wf() by {
                assert(before.entries@[i].wf());
            }
        }
        let raw: NonZeroU32 = NonZeroU32::new(raw).unwrap();
        Ok(TaskReservation::from_raw(raw))
    }

    /// Sets aside slots together with one preallocated stack for each.
    pub fn reserve_with_stacks(
        &mut self,
        required: NonZeroUsize,
        stack_size: NonZeroUsize,
        available: usize,
        stacks: [usize; 15],
    ) -> (r: Result<TaskReservation, TaskAdmissionError>)
        requires
            old(self).wf(),
            available <= DYNAMIC_TASK_CAPACITY,
        ensures
            final(self).wf(),
            match old(self).refusal(required@, available) {
                Some(error) => r == Err::<TaskReservation, _>(error) && *final(self) == *old(self),
                None => {
                    &&& r is Ok
                    &&& *final(self) == old(self).reserved_with(
                        required@ as u8,
                        stack_size@,
                        stacks,
                    )
                    &&& r->Ok_0.raw@ == token(
                        old(self).vacancy()->0,
                        next_generation(old(self).entries@[old(self).vacancy()->0].generation),
                    )
                    &&& final(self).resolved(r->Ok_0) == old(self).vacancy()
                },
            },
    {
        let ghost before = *self;
        let reservation = match self.reserve(required, available) {
            Ok(reservation) => reservation,
            Err(error) => {
                return Err(error);
            },
        };
        let ghost plain = *self;
        match self.resolve_slot(&reservation) {
            Ok(slot) => {
                self.entries[slot].stack_count = required.get() as u8;
                self.entries[slot].stack_size = stack_size.get();
                self.entries[slot].stacks = stacks;
                proof {
                    assert(plain.entries@[slot as int].wf());
                    assert(self.entries =~= before.reserved_with(
                        required@ as u8,
                        stack_size@,
                        stacks,
                    ).entries);
                    assert forall|i: int| 0 <= i < 4 implies (#[trigger] self.entries@[i]).wf() by {
                        assert(plain.entries@[i].wf());
                    }
                }
                Ok(reservation)
            },
            Err(error) => Err(TaskAdmissionError::Runtime(error)),
        }
    }

    /// Bytes of each stack that a reservation holds, if it holds stacks.
    pub fn stack_size(&self, reservation: &TaskReservation) -> (r: Result<
        Option<usize>,
        DriverError,
    >)
        ensures
            match self.resolved(*reservation) {
                Some(slot) => r == Ok::<_, DriverError>(
                    if self.entries@[slot].stack_count != 0 {
                        Some(self.entries@[slot].stack_size)
                    } else {
                        None
                    },
                ),
                None => r == Err::<Option<usize>, _>(DriverError::InvalidHandle),
            },
    {
        match self.resolve_slot(reservation) {
            Ok(slot) => {
                if self.entries[slot].stack_count != 0 {
                    Ok(Some(self.entries[slot].stack_size))
                } else {
                    Ok(None)
                }
            },
            Err(error) => Err(error),
        }
    }

    /// Whether a reservation still promises a slot.
    pub fn ensure_consumable(&self, reservation: &TaskReservation) -> (r: Result<(), DriverError>)
        ensures
            r == (match self.resolved(*reservation) {
                Some(slot) => if self.entries@[slot].remaining == 0 {
                    Err(DriverError::NoTaskSlots)
                } else {
                    Ok(())
                },
                None => Err(DriverError::InvalidHandle),
            }),
    {
        match self.resolve_slot(reservation) {
            Ok(slot) => {
                if self.entries[slot].remaining == 0 {
                    Err(DriverError::NoTaskSlots)
                } else {
                    Ok(())
                }
            },
            Err(error) => Err(error),
        }
    }

    /// Uses one promised slot and hands out its stack, if it has one.
    pub fn consume(&mut self, reservation: &TaskReservation) -> (r: Result<
        Option<ReservedStack>,
        DriverError,
    >)
        requires
            old(self).wf(),
        ensures
            final(self).wf(),
            match old(self).resolved(*reservation) {
                Some(slot) => if old(self).entries@[slot].remaining == 0 {
                    r == Err::<Option<ReservedStack>, _>(DriverError::NoTaskSlots) && *final(self)
                        == *old(self)
                } else {
                    let entry = old(self).entries@[slot];
                    &&& r == Ok::<_, DriverError>(
                        if entry.stack_count == 0 {
                            None
                        } else {
                            Some(
                                ReservedStack {
                                    pointer: entry.stacks@[entry.next_stack as int],
                                    size: entry.stack_size,
                                },
                            )
                        },
                    )
                    &&& *final(self) == old(self).consumed(slot)
                },
                None => r == Err::<Option<ReservedStack>, _>(DriverError::InvalidHandle)
                    && *final(self) == *old(self),
            },
    {
        let slot: usize = match self.resolve_slot(reservation) {
            Ok(slot) => slot,
            Err(error) => {
                return Err(error);
            },
        };
        let ghost before = *self;
        assert(self.entries@[slot as int].wf());
        if self.entries[slot].remaining == 0 {
            return Err(DriverError::NoTaskSlots);
        }
        let mut stack: Option<ReservedStack> = None;
        if self.entries[slot].stack_count != 0 {
            let index: usize = self.entries[slot].next_stack as usize;
            let pointer: usize = self.entries[slot].stacks[index];
            self.entries[slot].stacks[index] = 0;
            self.entries[slot].next_stack = self.entries[slot].next_stack + 1;
            stack = Some(ReservedStack { pointer, size: self.entries[slot].stack_size });
        }
        self.entries[slot].remaining = self.entries[slot].remaining - 1;
        self.total_remaining = self.total_remaining - 1;
        proof {
            let s = slot as int;
            assert(self.entries@[s].stacks =~= before.consumed(s).entries@[s].stacks);
            assert(self.entries =~= before.consumed(s).entries);
            assert forall|i: int| 0 <= i < 4 implies (#[trigger] self.entries@[i]).wf() by {
                assert(before.entries@[i].wf());
            }
        }
        Ok(stack)
    }

    /// Gives up a reservation and returns its unused stacks.
    pub fn release(&mut self, reservation: &TaskReservation) -> (r: Result<
        ReleasedTaskResources,
        DriverError,
    >)
        requires
            old(self).wf(),
        ensures
            final(self).wf(),
            match old(self).resolved(*reservation) {
                Some(slot) => {
                    let entry = old(self).entries@[slot];
                    &&& r is Ok
                    &&& r->Ok_0.count <= 15
                    &&& r->Ok_0@ == live_stacks(
                        entry.stacks@,
                        entry.next_stack as int,
                        entry.stack_count as int,
                    )
                    &&& *final(self) == old(self).released(slot)
                },
                None => r == Err::<ReleasedTaskResources, _>(DriverError::InvalidHandle)
                    && *final(self) == *old(self),
            },
    {
        let slot: usize = match self.resolve_slot(reservation) {
            Ok(slot) => slot,
            Err(error) => {
                return Err(error);
            },
        };
        let ghost before = *self;
        let entry = self.entries[slot];
        assert(entry.wf());
        let mut released = ReleasedTaskResources { stacks: [0;15], count: 0 };
        let mut index: usize = entry.next_stack as usize;
        assert(released@ =~= live_stacks(entry.stacks@, index as int, index as int));
        while index < entry.stack_count as usize
            invariant
                entry.next_stack <= index <= entry.stack_count <= 15,
                released.count <= index - entry.next_stack,
                released@ == live_stacks(entry.stacks@, entry.next_stack as int, index as int),
            decreases entry.stack_count - index,
        {
            let pointer: usize = entry.stacks[index];
            if pointer != 0 {
                let ghost sofar = released@;
                let at: usize = released.count;
                released.stacks[at] = pointer;
                released.count = at + 1;
                assert(released@ =~= sofar.push(pointer));
            }
            index = index + 1;
        }
        self.total_remaining = self.total_remaining - entry.remaining as usize;
        self.entries[slot].remaining = 0;
        self.entries[slot].next_stack = 0;
        self.entries[slot].stack_count = 0;
        self.entries[slot].stack_size = 0;
        self.entries[slot].stacks = [0;15];
        self.entries[slot].active = false;
        proof {
            assert(self.entries =~= before.released(slot as int).entries);
            assert forall|i: int| 0 <= i < 4 implies (#[trigger] self.entries@[i]).wf() by {
                assert(before.entries@[i].wf());
            }
        }
        Ok(released)
    }

    /// A fresh token names its own entry, and a token of another live entry still names
    /// that one.
    pub proof fn law_fresh_token_resolves(
        self,
        required: u8,
        fresh: TaskReservation,
        other: TaskReservation,
    )
        requires
            self.vacancy() is Some,
            fresh.raw@ == token(
                self.vacancy()->0,
                next_generation(self.entries@[self.vacancy()->0].generation),
            ),
            self.resolved(other) is Some,
        ensures
            self.reserved(required).resolved(fresh) == self.vacancy(),
            self.reserved(required).resolved(other) == self.resolved(other),
            self.resolved(other) != self.vacancy(),
    {
        let slot = self.vacancy()->0;
        let generation = next_generation(self.entries@[slot].generation);
        let raw = fresh.raw@ as int;
        assert(raw == generation * 256 + slot + 1);
        assert(raw / 256 == generation && raw % 256 == slot + 1);
    }

    /// A token is dead once its reservation was given up, and stays dead when the entry
    /// is used again.
    pub proof fn law_released_token_is_dead(self, reservation: TaskReservation, required: u8)
        requires
            self.resolved(reservation) is Some,
        ensures
            self.released(self.resolved(reservation)->0).resolved(reservation) is None,
            self.released(self.resolved(reservation)->0).reserved(required).resolved(
                reservation,
            ) is None,
    {
    }

    /// Giving up an unused reservation takes back exactly what it promised, and touches
    /// no other reservation.
    pub proof fn law_release_takes_back_the_promise(self, required: u8)
        requires
            self.wf(),
            self.vacancy() is Some,
            self.total_remaining + required <= usize::MAX,
        ensures
            ({
                let slot = self.vacancy()->0;
                let n = self.reserved(required).released(slot);
                &&& n.total_remaining == self.total_remaining
                &&& n.vacancy() == self.vacancy()
                &&& forall|i: int|
                    0 <= i < 4 && i != slot ==> #[trigger] n.entries@[i] == self.entries@[i]
            }),
    {
    }

    fn resolve_slot(&self, reservation: &TaskReservation) -> (r: Result<usize, DriverError>)
        ensures
            match self.resolved(*reservation) {
                Some(slot) => r is Ok && r->Ok_0 == slot && slot < 4,
                None => r == Err::<usize, _>(DriverError::InvalidHandle),
            },
    {
        let raw: u32 = reservation.into_raw().get();
        if raw >> 24 != 0 {
            assert(raw >> 24 != 0 ==> raw / 256 > 0xffff) by (bit_vector);
            return Err(DriverError::InvalidHandle);
        }
        assert(raw >> 24 == 0 ==> raw / 256 <= 0xffff) by (bit_vector);
        assert(raw & 0xff == raw % 256) by (bit_vector);
        assert(raw >> 8 == raw / 256) by (bit_vector);
        let encoded_slot: usize = (raw & 0xff) as usize;
        let generation: u16 = (raw >> 8) as u16;
        if encoded_slot == 0 || generation == 0 {
            return Err(DriverError::InvalidHandle);
        }
        let slot: usize = encoded_slot - 1;
        if slot >= RESERVATION_SLOT_COUNT {
            return Err(DriverError::InvalidHandle);
        }
        if !self.entries[slot].active || self.entries[slot].generation != generation {
            return Err(DriverError::InvalidHandle);
        }
        Ok(slot)
    }
}

/// One change of a reservation table.
pub enum TableStep {
    /// Slots are set aside.
    Reserve { required: u8 },
    /// Slots are set aside with their stacks.
    ReserveWith { required: u8, stack_size: usize, stacks: [usize; 15] },
    /// One promised slot of an entry is used.
    Consume { slot: int },
    /// An entry is given up.
    Release { slot: int },
}

/// How many of `steps` set slots aside.
pub open spec fn reservations_in(steps: Seq<TableStep>) -> nat
    decreases steps.len(),
{
    if steps.len() == 0 {
        0
    } else {
        reservations_in(steps.drop_last()) + match steps.last() {
            TableStep::Reserve { .. } | TableStep::ReserveWith { .. } => 1nat,
            _ => 0nat,
        }
    }
}

impl ReservationTable {
    pub open spec fn stepped(self, step: TableStep) -> ReservationTable {
        match step {
            TableStep::Reserve { required } => self.reserved(required),
            TableStep::ReserveWith { required, stack_size, stacks } => self.reserved_with(
                required,
                stack_size,
                stacks,
            ),
            TableStep::Consume { slot } => self.consumed(slot),
            TableStep::Release { slot } => self.released(slot),
        }
    }

    /// A reservation finds a vacant entry, and only live entries are used and given up.
    pub open spec fn can_step(self, step: TableStep) -> bool {
        match step {
            TableStep::Reserve { .. } | TableStep::ReserveWith { .. } => self.vacancy() is Some,
            TableStep::Consume { slot } => 0 <= slot < 4 && self.entries@[slot].active
                && self.entries@[slot].remaining != 0,
            TableStep::Release { slot } => 0 <= slot < 4 && self.entries@[slot].active,
        }
    }

    /// The table after `steps`, one after the other.
    pub open spec fn after(self, steps: Seq<TableStep>) -> ReservationTable
        decreases steps.len(),
    {
        if steps.len() == 0 {
            self
        } else {
            self.after(steps.drop_last()).stepped(steps.last())
        }
    }

    /// Every one of `steps` is possible when its turn comes.
    pub open spec fn can_take(self, steps: Seq<TableStep>) -> bool
        decreases steps.len(),
    {
        steps.len() == 0 || (self.can_take(steps.drop_last()) && self.after(
            steps.drop_last(),
        ).can_step(steps.last()))
    }

    /// The generation of an entry counts how often it was used; an entry that was given up
    /// is live again only after a further use.
    proof fn lemma_generation_counts(self, slot: int, steps: Seq<TableStep>) -> (uses: nat)
        requires
            0 <= slot < 4,
            !self.entries@[slot].active,
            self.can_take(steps),
        ensures
            uses <= reservations_in(steps),
            self.after(steps).entries@[slot].generation == later_generation(
                self.entries@[slot].generation,
                uses,
            ),
            uses == 0 ==> !self.after(steps).entries@[slot].active,
        decreases steps.len(),
    {
        if steps.len() == 0 {
            0
        } else {
            let before = self.after(steps.drop_last());
            let uses = self.lemma_generation_counts(slot, steps.drop_last());
            let fresh = match steps.last() {
                TableStep::Reserve { .. } | TableStep::ReserveWith { .. } => before.vacancy()
                    == Some(slot),
                _ => false,
            };
            if fresh {
                assert(later_generation(self.entries@[slot].generation, uses + 1)
                    == next_generation(before.entries@[slot].generation));
                uses + 1
            } else {
                uses
            }
        }
    }

    /// A token that was given up stays dead, whatever happens to the table, for as long as
    /// fewer than 65535 reservations follow; and none of those has the same token.
    pub proof fn law_released_token_stays_dead(
        self,
        reservation: TaskReservation,
        steps: Seq<TableStep>,
        fresh: TaskReservation,
    )
        requires
            self.resolved(reservation) is Some,
            self.released(self.resolved(reservation)->0).can_take(steps),
            reservations_in(steps) < 65535,
        ensures
            ({
                let n = self.released(self.resolved(reservation)->0).after(steps);
                &&& n.resolved(reservation) is None
                &&& n.vacancy() is Some && reservations_in(steps) + 1 < 65535 && fresh.raw@
                    == token(
                    n.vacancy()->0,
                    next_generation(n.entries@[n.vacancy()->0].generation),
                ) ==> fresh.raw@ != reservation.raw@
            }),
    {
        let slot = self.resolved(reservation)->0;
        let t = self.released(slot);
        let n = t.after(steps);
        let g = self.entries@[slot].generation;
        let raw = reservation.raw@ as int;
        let uses = t.lemma_generation_counts(slot, steps);
        assert(t.entries@[slot].generation == g);
        if uses > 0 {
            law_generation_returns_last(g, uses);
        }
        if n.vacancy() is Some && reservations_in(steps) + 1 < 65535 && fresh.raw@ == token(
            n.vacancy()->0,
            next_generation(n.entries@[n.vacancy()->0].generation),
        ) {
            let v = n.vacancy()->0;
            let next = next_generation(n.entries@[v].generation);
            assert(fresh.raw@ == next * 256 + v + 1);
            assert(fresh.raw@ as int / 256 == next && fresh.raw@ as int % 256 == v + 1);
            if v == slot {
                assert(later_generation(g, uses + 1) == next);
                law_generation_returns_last(g, uses + 1);
            }
        }
    }

    // ---- Stacks ------------------------------------------------------------------
    /// The table after `k` promised slots of `slot` were used.
    pub open spec fn consumed_times(self, slot: int, k: nat) -> ReservationTable
        decreases k,
    {
        if k == 0 {
            self
        } else {
            self.consumed_times(slot, (k - 1) as nat).consumed(slot)
        }
    }

    /// The stacks that the first `k` used slots of `slot` are given, in order.
    pub open spec fn handed_out(self, slot: int, k: nat) -> Seq<usize>
        decreases k,
    {
        if k == 0 {
            Seq::empty()
        } else {
            let entry = self.consumed_times(slot, (k - 1) as nat).entries@[slot];
            self.handed_out(slot, (k - 1) as nat).push(entry.stacks@[entry.next_stack as int])
        }
    }

    proof fn lemma_consumed_times(self, slot: int, k: nat)
        requires
            0 <= slot < 4,
            self.entries@[slot].next_stack == 0,
            self.entries@[slot].stack_count != 0,
            k <= self.entries@[slot].stack_count <= 15,
            self.entries@[slot].remaining == self.entries@[slot].stack_count,
            self.entries@[slot].remaining <= self.total_remaining,
        ensures
            ({
                let e = self.entries@[slot];
                let n = self.consumed_times(slot, k);
                let f = n.entries@[slot];
                &&& f == (ReservationEntry {
                    remaining: (e.remaining - k) as u8,
                    next_stack: k as u8,
                    stacks: f.stacks,
                    ..e
                })
                &&& forall|i: int|
                    0 <= i < 15 ==> #[trigger] f.stacks@[i] == (if i < k {
                        0
                    } else {
                        e.stacks@[i]
                    })
                &&& n.total_remaining == self.total_remaining - k
                &&& forall|i: int|
                    0 <= i < 4 && i != slot ==> #[trigger] n.entries@[i] == self.entries@[i]
                &&& self.handed_out(slot, k) == e.stacks@.take(k as int)
            }),
        decreases k,
    {
        let e = self.entries@[slot];
        if k > 0 {
            self.lemma_consumed_times(slot, (k - 1) as nat);
            assert(e.stacks@.take(k as int) =~= e.stacks@.take(k - 1).push(e.stacks@[k - 1]));
        } else {
            assert(e.stacks@.take(0) =~= Seq::<usize>::empty());
        }
    }

    /// No stack is lost and none is given twice: the stacks that the tasks of a reservation
    /// were given, followed by those that come back when it is given up, are exactly the
    /// stacks that were reserved. Giving it up takes back the slots that were not used,
    /// ends its token for good and touches no other reservation.
    pub proof fn law_reserved_stacks_come_back(
        self,
        required: u8,
        stack_size: usize,
        stacks: [usize; 15],
        k: nat,
        reservation: TaskReservation,
    )
        requires
            self.wf(),
            self.vacancy() is Some,
            0 < required <= 15,
            k <= required,
            self.total_remaining + required <= usize::MAX,
            forall|i: int| 0 <= i < required ==> (#[trigger] stacks@[i]) != 0,
            reservation.raw@ == token(
                self.vacancy()->0,
                next_generation(self.entries@[self.vacancy()->0].generation),
            ),
        ensures
            ({
                let slot = self.vacancy()->0;
                let reserved = self.reserved_with(required, stack_size, stacks);
                let used = reserved.consumed_times(slot, k);
                let entry = used.entries@[slot];
                let back = used.released(slot);
                &&& used.resolved(reservation) == Some(slot)
                &&& reserved.handed_out(slot, k) + live_stacks(
                    entry.stacks@,
                    entry.next_stack as int,
                    entry.stack_count as int,
                ) == stacks@.take(required as int)
                &&& back.total_remaining == used.total_remaining - (required - k)
                &&& back.total_remaining == self.total_remaining
                &&& back.resolved(reservation) is None
                &&& forall|i: int|
                    0 <= i < 4 && i != slot ==> #[trigger] back.entries@[i] == self.entries@[i]
            }),
    {
        let slot = self.vacancy()->0;
        let reserved = self.reserved_with(required, stack_size, stacks);
        let used = reserved.consumed_times(slot, k);
        let entry = used.entries@[slot];
        let raw = reservation.raw@ as int;
        let generation = next_generation(self.entries@[slot].generation);
        assert(raw == generation * 256 + slot + 1);
        assert(raw / 256 == generation && raw % 256 == slot + 1);
        reserved.lemma_consumed_times(slot, k);
        lemma_live_range(entry.stacks@, k as int, required as int);
        assert(entry.stacks@.subrange(k as int, required as int) =~= stacks@.subrange(
            k as int,
            required as int,
        ));
        assert(stacks@.take(k as int) + stacks@.subrange(k as int, required as int)
            =~= stacks@.take(required as int));
    }

    /// Using or giving up one reservation, and making another, leaves every other live
    /// entry as it is.
    pub proof fn law_reservations_are_independent(self, step: TableStep, other: int)
        requires
            self.can_step(step),
            0 <= other < 4,
            self.entries@[other].active,
            match step {
                TableStep::Consume { slot } => slot != other,
                TableStep::Release { slot } => slot != other,
                _ => true,
            },
        ensures
            self.stepped(step).entries@[other] == self.entries@[other],
    {
    }
}

/// Words that are all taken are live as a whole.
pub(crate) proof fn lemma_live_range(stacks: Seq<usize>, from: int, to: int)
    requires
        0 <= from <= to <= stacks.len(),
        forall|i: int| from <= i < to ==> (#[trigger] stacks[i]) != 0,
    ensures
        live_stacks(stacks, from, to) == stacks.subrange(from, to),
    decreases to - from,
{
    if from < to {
        lemma_live_range(stacks, from, to - 1);
        assert(stacks.subrange(from, to) =~= stacks.subrange(from, to - 1).push(stacks[to - 1]));
    } else {
        assert(stacks.subrange(from, to) =~= Seq::<usize>::empty());
    }
}

} // verus!
