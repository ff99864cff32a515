//! Generation-bearing handles of semaphores and mutexes.
use vstd::prelude::*;
use crate::error::DriverError;
use crate::nonzero::NonZeroUsize;

verus! {

/// Handles that a table can number: the low byte holds the slot.
pub const HANDLE_SLOT_MASK: usize = 255;

/// What a handle names.
#[derive(Clone, Copy, Debug, Eq, PartialEq, Structural)]
pub enum ResourceKind {
    Semaphore,
    Mutex,
}

/// One handle slot. A vacant slot has a zero pointer.
#[derive(Clone, Copy)]
pub struct ResourceSlot {
    pub pointer: usize,
    pub generation: usize,
    pub kind: ResourceKind,
}

/// The greatest generation that fits above the slot byte.
pub open spec fn generation_max() -> usize {
    usize::MAX / 256
}

/// The generation that follows `current`; zero is never used.
pub open spec fn next_generation(current: usize) -> usize {
    if current == 0 || current == generation_max() {
        1
    } else {
        (current + 1) as usize
    }
}

/// The raw handle of `slot` in `generation`.
pub open spec fn handle_of(slot: int, generation: usize) -> int {
    generation * 256 + slot + 1
}

fn following_generation(current: usize) -> (r: usize)
    requires
        current <= generation_max(),
    ensures
        r == next_generation(current),
        0 < r <= generation_max(),
{
    if current == 0 || current == usize::MAX / 256 {
        1
    } else {
        current + 1
    }
}

/// A bounded table of live handles.
pub struct ResourceTable<const N: usize> {
    pub slots: [ResourceSlot; N],
}

impl<const N: usize> ResourceTable<N> {
    /// Every generation fits into a handle, and live entries have one.
    pub open spec fn wf(self) -> bool {
        &&& 0 < N <= HANDLE_SLOT_MASK
        &&& forall|i: int|
            0 <= i < N ==> {
                &&& (#[trigger] self.slots@[i]).generation <= generation_max()
                &&& self.slots@[i].pointer != 0 ==> self.slots@[i].generation != 0
            }
    }

    /// The first vacant slot from `i` on.
    pub open spec fn vacancy_from(self, i: int) -> Option<int>
        decreases N - i,
    {
        if i >= N {
            None
        } else if self.slots@[i].pointer == 0 {
            Some(i)
        } else {
            self.vacancy_from(i + 1)
        }
    }

    /// The slot of the live object of `kind` that a handle names.
    pub open spec fn live(self, handle: NonZeroUsize, kind: ResourceKind) -> Option<int> {
        let slot = handle@ % 256 - 1;
        let generation = handle@ / 256;
        if 0 <= slot < N && generation != 0 && self.slots@[slot].pointer != 0
            && self.slots@[slot].generation == generation && self.slots@[slot].kind == kind {
            Some(slot)
        } else {
            None
        }
    }

    /// A table without live handles.
    pub fn new() -> (r: Self)
        requires
            0 < N <= HANDLE_SLOT_MASK,
        ensures
            r.wf(),
            forall|i: int| 0 <= i < N ==> (#[trigger] r.slots@[i]).pointer == 0,
            forall|i: int| 0 <= i < N ==> (#[trigger] r.slots@[i]).generation == 0,
    {
        ResourceTable {
            slots: [ResourceSlot { pointer: 0, generation: 0, kind: ResourceKind::Semaphore };N],
        }
    }

    /// The first vacant slot.
    pub fn vacancy(&self) -> (r: Option<usize>)
        ensures
            match r {
                Some(slot) => slot < N && self.vacancy_from(0) == Some(slot as int)
                    && self.slots@[slot as int].pointer == 0,
                None => self.vacancy_from(0) is None,
            },
    {
        let mut slot: usize = 0;
        while slot < N
            invariant
                slot <= N,
                self.vacancy_from(0) == self.vacancy_from(slot as int),
            decreases N - slot,
        {
            if self.slots[slot].pointer == 0 {
                return Some(slot);
            }
            slot = slot + 1;
        }
        None
    }

    /// Gives an object a handle that no earlier object had in the same generation.
    pub fn insert(&mut self, pointer: NonZeroUsize, kind: ResourceKind) -> (r: Result<
        NonZeroUsize,
        DriverError,
    >)
        requires
            old(self).wf(),
        ensures
            final(self).wf(),
            match old(self).vacancy_from(0) {
                Some(slot) => {
                    let generation = next_generation(old(self).slots@[slot].generation);
                    &&& 0 <= slot < N
                    &&& r is Ok
                    &&& r->Ok_0@ == handle_of(slot, generation)
                    &&& final(self).slots@ == old(self).slots@.update(
                        slot,
                        ResourceSlot { pointer: pointer@, generation, kind },
                    )
                    &&& final(self).live(r->Ok_0, kind) == Some(slot)
                },
                None => {
                    &&& r == Err::<NonZeroUsize, _>(DriverError::ResourceExhausted)
                    &&& *final(self) == *old(self)
                },
            },
    {
        let slot: usize = match self.vacancy() {
            Some(slot) => slot,
            None => {
                return Err(DriverError::ResourceExhausted);
            },
        };
        let ghost before = *self;
        assert(before.slots@[slot as int].generation <= generation_max());
        let generation: usize = following_generation(self.slots[slot].generation);
        self.slots[slot] = ResourceSlot { pointer: pointer.get(), generation, kind };
        proof {
            assert(generation * 256 + slot + 1 <= usize::MAX);
            assert forall|i: int| 0 <= i < N implies {
                &&& (#[trigger] self.slots@[i]).generation <= generation_max()
                &&& self.slots@[i].pointer != 0 ==> self.slots@[i].generation != 0
            } by {
                assert(before.slots@[i].generation <= generation_max());
            }
        }
        let raw: usize = generation * 256 + slot + 1;
        assert(raw % 256 == slot + 1 && raw / 256 == generation);
        match NonZeroUsize::new(raw) {
            Some(handle) => Ok(handle),
            None => Err(DriverError::Runtime),
        }
    }

    /// The slot of the live object of `kind` that a handle names.
    pub fn find(&self, handle: NonZeroUsize, kind: ResourceKind) -> (r: Option<usize>)
        ensures
            match r {
                Some(slot) => slot < N && self.live(handle, kind) == Some(slot as int),
                None => self.live(handle, kind) is None,
            },
    {
        let raw: usize = handle.get();
        let encoded: usize = raw % 256;
        let generation: usize = raw / 256;
        if encoded == 0 || encoded > N || generation == 0 {
            return None;
        }
        let entry = self.slots[encoded - 1];
        if entry.pointer == 0 || entry.generation != generation || entry.kind != kind {
            return None;
        }
        Some(encoded - 1)
    }

    /// The object that a live handle of `kind` names.
    pub fn resolve(&self, handle: NonZeroUsize, kind: ResourceKind) -> (r: Result<
        NonZeroUsize,
        DriverError,
    >)
        ensures
            match self.live(handle, kind) {
                Some(slot) => r is Ok && r->Ok_0@ == self.slots@[slot].pointer,
                None => r == Err::<NonZeroUsize, _>(DriverError::InvalidHandle),
            },
    {
        match self.find(handle, kind) {
            Some(slot) => match NonZeroUsize::new(self.slots[slot].pointer) {
                Some(pointer) => Ok(pointer),
                None => Err(DriverError::InvalidHandle),
            },
            None => Err(DriverError::InvalidHandle),
        }
    }

    /// Ends the life of a handle and returns its object.
    pub fn remove(&mut self, handle: NonZeroUsize, kind: ResourceKind) -> (r: Result<
        NonZeroUsize,
        DriverError,
    >)
        requires
            old(self).wf(),
        ensures
            final(self).wf(),
            match old(self).live(handle, kind) {
                Some(slot) => {
                    &&& r is Ok
                    &&& r->Ok_0@ == old(self).slots@[slot].pointer
                    &&& final(self).slots@ == old(self).slots@.update(
                        slot,
                        ResourceSlot { pointer: 0, ..old(self).slots@[slot] },
                    )
                },
                None => {
                    &&& r == Err::<NonZeroUsize, _>(DriverError::InvalidHandle)
                    &&& *final(self) == *old(self)
                },
            },
    {
        let pointer = match self.resolve(handle, kind) {
            Ok(pointer) => pointer,
            Err(error) => {
                return Err(error);
            },
        };
        match self.find(handle, kind) {
            Some(slot) => {
                let ghost before = *self;
                self.slots[slot].pointer = 0;
                proof {
                    assert forall|i: int| 0 <= i < N implies {
                        &&& (#[trigger] self.slots@[i]).generation <= generation_max()
                        &&& self.slots@[i].pointer != 0 ==> self.slots@[i].generation != 0
                    } by {
                        assert(before.slots@[i].generation <= generation_max());
                    }
                    assert(self.slots@ =~= before.slots@.update(
                        slot as int,
                        ResourceSlot { pointer: 0, ..before.slots@[slot as int] },
                    ));
                }
                Ok(pointer)
            },
            None => Err(DriverError::InvalidHandle),
        }
    }

    /// A removed handle is dead, and stays dead when its slot is given to the next
    /// object.
    pub proof fn law_stale_handles_stay_dead(
        self,
        removed: ResourceTable<N>,
        reused: ResourceTable<N>,
        handle: NonZeroUsize,
        kind: ResourceKind,
        other: ResourceKind,
        pointer: usize,
    )
        requires
            self.wf(),
            self.live(handle, kind) is Some,
            removed.slots@ == self.slots@.update(
                self.live(handle, kind)->0,
                ResourceSlot { pointer: 0, ..self.slots@[self.live(handle, kind)->0] },
            ),
            reused.slots@ == removed.slots@.update(
                self.live(handle, kind)->0,
                ResourceSlot {
                    pointer,
                    generation: next_generation(
                        removed.slots@[self.live(handle, kind)->0].generation,
                    ),
                    kind: other,
                },
            ),
        ensures
            forall|k: ResourceKind| removed.live(handle, k) is None,
            forall|k: ResourceKind| reused.live(handle, k) is None,
    {
        let slot = self.live(handle, kind)->0;
        assert(self.slots@[slot].generation <= generation_max());
        assert(generation_max() > 1);
        assert(removed.slots@[slot].pointer == 0);
        assert(reused.slots@[slot].generation != self.slots@[slot].generation);
    }

    /// The kind is part of the identity: a handle never names an object of another kind.
    pub proof fn law_kind_is_part_of_the_identity(
        self,
        handle: NonZeroUsize,
        kind: ResourceKind,
        other: ResourceKind,
    )
        requires
            self.live(handle, kind) is Some,
            other != kind,
        ensures
            self.live(handle, other) is None,
    {
    }
}

} // verus!
