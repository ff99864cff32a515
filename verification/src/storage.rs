//! Caller-owned storage for the stacks of dynamically created tasks.
use vstd::prelude::*;
use crate::config::DYNAMIC_TASK_CAPACITY;

verus! {

/// Alignment of every task stack.
pub const STACK_ALIGNMENT: usize = 16;

/// The heap type of the `hisi_alloc` crate. What is allocated is behind a critical section
/// and changes through shared references, so nothing is stated of it.
#[verifier::external_type_specification]
#[verifier::external_body]
pub struct ExCHeap(hisi_alloc::CHeap);

/// The size of the arena that a heap manages, which it is made with once and for all:
/// zero until `hisi_alloc::CHeap::init` has accepted an arena, and the number of bytes in
/// use for allocations from then on. The storage below keeps its heap to itself and lends
/// it out exclusively, so no arena is registered behind a shared reference.
pub uninterp spec fn arena_size(heap: hisi_alloc::CHeap) -> nat;

/// `hisi_alloc::CHeap::empty` makes a heap that no arena has been registered with.
pub assume_specification[ hisi_alloc::CHeap::empty ]() -> (r: hisi_alloc::CHeap)
    ensures
        arena_size(r) == 0,
;

/// A snapshot of stack-arena usage.
#[derive(Clone, Copy, Debug, Eq, PartialEq, Structural)]
pub struct HeapMetrics {
    /// Whether an arena has been registered.
    pub initialized: bool,
    /// Bytes that the allocator manages.
    pub arena_bytes: usize,
    /// Bytes occupied by allocations, with their headers and padding.
    pub used_bytes: usize,
    /// Bytes that are free, not necessarily in one piece.
    pub free_bytes: usize,
    /// Highest value of `used_bytes` so far.
    pub peak_used_bytes: usize,
    /// Number of live allocations.
    pub live_allocations: usize,
    /// Highest value of `live_allocations` so far.
    pub peak_live_allocations: usize,
    /// Allocation calls, including those that failed.
    pub allocation_attempts: usize,
    /// Allocation calls that failed.
    pub allocation_failures: usize,
    /// Deallocation calls that were rejected.
    pub deallocation_failures: usize,
}

impl HeapMetrics {
    /// A snapshot of a heap with an arena of `size` bytes, whatever has been allocated from
    /// it. Used and free bytes make up the arena, and every peak covers what is there now.
    /// No more calls have failed than were made, and those that did not fail cover the
    /// peak, as long as their counter has not reached its end. Without an arena nothing was
    /// ever allocated and every call has failed.
    pub open spec fn describes(self, size: nat) -> bool {
        &&& self.arena_bytes == size
        &&& self.initialized == (size != 0)
        &&& self.used_bytes + self.free_bytes == size
        &&& self.used_bytes <= self.peak_used_bytes <= size
        &&& self.live_allocations <= self.peak_live_allocations
        &&& self.allocation_failures <= self.allocation_attempts
        &&& self.allocation_attempts < usize::MAX ==> self.allocation_failures
            + self.peak_live_allocations <= self.allocation_attempts
        &&& size == 0 ==> self.peak_live_allocations == 0 && self.allocation_failures
            == self.allocation_attempts
    }
}

/// Calls `hisi_alloc::CHeap::metrics` and copies its ten fields. The counters belong to
/// the moment of the call. Claimed of every snapshot: it describes a heap with the arena
/// that was registered.
#[verifier::external_body]
fn heap_metrics(heap: &hisi_alloc::CHeap) -> (r: HeapMetrics)
    ensures
        r.describes(arena_size(*heap)),
{
    let m = heap.metrics();
    HeapMetrics {
        initialized: m.initialized,
        arena_bytes: m.arena_bytes,
        used_bytes: m.used_bytes,
        free_bytes: m.free_bytes,
        peak_used_bytes: m.peak_used_bytes,
        live_allocations: m.live_allocations,
        peak_live_allocations: m.peak_live_allocations,
        allocation_attempts: m.allocation_attempts,
        allocation_failures: m.allocation_failures,
        deallocation_failures: m.deallocation_failures,
    }
}

/// Calls `hisi_alloc::CHeap::allocate_zeroed` and returns the address, zero when there is
/// none. Which address it is, and whether there is one, depends on what is free at that
/// moment. Claimed of every outcome: a request for nothing fails, and so does one that
/// with its header of sixteen bytes and the room to align it is larger than the arena or
/// than the header can record; an allocation is aligned and ends inside the address space.
#[verifier::external_body]
fn allocate_zeroed(heap: &hisi_alloc::CHeap, size: usize, alignment: usize) -> (r: usize)
    ensures
        size == 0 || alignment == 0 ==> r == 0,
        r != 0 ==> r % alignment == 0 && r + size <= usize::MAX,
        r != 0 ==> size + 16 + alignment - 1 <= arena_size(*heap),
        r != 0 ==> size + 16 + alignment - 1 <= u32::MAX,
{
    heap.allocate_zeroed(size, alignment) as usize
}

/// Calls `hisi_alloc::CHeap::largest_allocatable`, which probes what is free at that
/// moment. Claimed of every outcome: without an alignment it finds nothing, and what it
/// finds fits, with a header of sixteen bytes and the room to align it, into the arena and
/// into what the header can record.
#[verifier::external_body]
fn largest_allocatable(heap: &hisi_alloc::CHeap, alignment: usize) -> (r: usize)
    ensures
        alignment == 0 ==> r == 0,
        r != 0 ==> r + 16 + alignment - 1 <= arena_size(*heap),
        r != 0 ==> r + 16 + alignment - 1 <= u32::MAX,
{
    heap.largest_allocatable(alignment)
}

/// Failure to install caller-owned scheduler storage.
#[derive(Clone, Copy, Debug, Eq, PartialEq, Structural)]
pub enum StorageError {
    /// The storage object was already consumed by a runtime.
    AlreadyInstalled,
    /// The supplied arena cannot back the task-stack allocator.
    InvalidArena,
    /// The requested dynamic task capacity exceeds this runtime build.
    UnsupportedCapacity {
        /// Capacity requested through `SchedulerStorage<N>`.
        requested: usize,
        /// Largest capacity supported by this runtime build.
        maximum: usize,
    },
}

/// Bytes used exclusively for dynamic task stacks.
pub struct SchedulerStackArena<const BYTES: usize> {
    pub bytes: [u8; BYTES],
}

impl<const BYTES: usize> SchedulerStackArena<BYTES> {
    /// An arena that nothing has been allocated from.
    pub fn new() -> (r: Self)
        ensures
            r.bytes@.len() == BYTES,
            forall|i: int| 0 <= i < BYTES ==> #[trigger] r.bytes@[i] == 0,
    {
        SchedulerStackArena { bytes: [0u8;BYTES] }
    }
}

impl<const BYTES: usize> Default for SchedulerStackArena<BYTES> {
    fn default() -> (r: Self)
        ensures
            r.bytes@.len() == BYTES,
            forall|i: int| 0 <= i < BYTES ==> #[trigger] r.bytes@[i] == 0,
    {
        SchedulerStackArena::new()
    }
}

/// Caller-owned task-stack storage for at most `N` dynamic tasks. The heap is lent out
/// exclusively, to register an arena and to give stacks back.
pub struct SchedulerStorage<const N: usize> {
    heap: hisi_alloc::CHeap,
    installed: bool,
}

impl<const N: usize> SchedulerStorage<N> {
    /// The size of the arena, zero as long as there is none.
    pub closed spec fn arena(self) -> nat {
        arena_size(self.heap)
    }

    /// A runtime has consumed the storage.
    pub closed spec fn is_installed(self) -> bool {
        self.installed
    }

    /// No stack above this limit can be allocated: it takes its header of sixteen bytes and
    /// the room to align it out of the arena as well, and the header records 32 bits.
    pub open spec fn stack_limit(self) -> int {
        if self.arena() <= u32::MAX {
            self.arena() - 31
        } else {
            u32::MAX - 31
        }
    }

    /// Why an installation is refused before the arena is touched.
    pub open spec fn refusal(self) -> Option<StorageError> {
        if N == 0 || N > DYNAMIC_TASK_CAPACITY {
            Some(
                StorageError::UnsupportedCapacity { requested: N, maximum: DYNAMIC_TASK_CAPACITY },
            )
        } else if self.is_installed() {
            Some(StorageError::AlreadyInstalled)
        } else {
            None
        }
    }

    /// Storage that is not installed yet.
    pub fn new() -> (r: Self)
        ensures
            !r.is_installed(),
            r.arena() == 0,
    {
        SchedulerStorage { heap: hisi_alloc::CHeap::empty(), installed: false }
    }

    /// Installs an arena for the life of the process. `register` hands the arena to the
    /// heap and tells whether the heap accepted it; it is not called when the
    /// installation is refused anyway.
    pub fn install<R: FnOnce(&mut hisi_alloc::CHeap) -> bool>(&mut self, register: R) -> (r: Result<
        InstalledSchedulerStorage<N>,
        StorageError,
    >)
        requires
            old(self).refusal() is None ==> forall|heap: &mut hisi_alloc::CHeap|
                arena_size(*heap) == old(self).arena() ==> #[trigger] call_requires(
                    register,
                    (heap,),
                ),
        ensures
            match old(self).refusal() {
                Some(error) => {
                    &&& r == Err::<InstalledSchedulerStorage<N>, _>(error)
                    &&& *final(self) == *old(self)
                },
                None => {
                    &&& exists|heap: &mut hisi_alloc::CHeap, accepted: bool|
                        {
                            &&& arena_size(*heap) == old(self).arena()
                            &&& arena_size(*final(heap)) == final(self).arena()
                            &&& #[trigger] call_ensures(register, (heap,), accepted)
                            &&& accepted == (r is Ok)
                        }
                    &&& r is Err ==> r == Err::<InstalledSchedulerStorage<N>, _>(
                        StorageError::InvalidArena,
                    )
                    &&& final(self).is_installed() == (r is Ok)
                },
            },
    {
        if N == 0 || N > DYNAMIC_TASK_CAPACITY {
            return Err(
                StorageError::UnsupportedCapacity { requested: N, maximum: DYNAMIC_TASK_CAPACITY },
            );
        }
        if self.installed {
            return Err(StorageError::AlreadyInstalled);
        }
        let heap = &mut self.heap;
        assert(arena_size(*heap) == old(self).arena());
        let accepted: bool = register(heap);
        self.installed = accepted;
        if !accepted {
            return Err(StorageError::InvalidArena);
        }
        Ok(InstalledSchedulerStorage {  })
    }

    /// Lends out the heap, which stacks are given back to.
    pub fn heap_mut(&mut self) -> (r: &mut hisi_alloc::CHeap)
        ensures
            arena_size(*r) == old(self).arena(),
            arena_size(*final(r)) == final(self).arena(),
            final(self).is_installed() == old(self).is_installed(),
    {
        &mut self.heap
    }

    /// Snapshots arena usage.
    pub fn metrics(&self) -> (r: HeapMetrics)
        ensures
            r.describes(self.arena()),
    {
        heap_metrics(&self.heap)
    }

    /// Allocates one task stack; zero when there is no memory for it.
    pub fn allocate(&self, size: usize) -> (r: usize)
        ensures
            size == 0 ==> r == 0,
            r % STACK_ALIGNMENT == 0,
            r != 0 ==> r + size <= usize::MAX,
            size > self.stack_limit() ==> r == 0,
    {
        allocate_zeroed(&self.heap, size, STACK_ALIGNMENT)
    }

    /// The largest stack that could be allocated now.
    pub fn largest_allocatable_stack(&self) -> (r: usize)
        ensures
            r == 0 || r <= self.stack_limit(),
    {
        largest_allocatable(&self.heap, STACK_ALIGNMENT)
    }
}

impl<const N: usize> Default for SchedulerStorage<N> {
    fn default() -> (r: Self)
        ensures
            !r.is_installed(),
            r.arena() == 0,
    {
        SchedulerStorage::new()
    }
}

/// Proof that caller-owned scheduler storage was installed.
#[must_use]
pub struct InstalledSchedulerStorage<const N: usize> {}

impl<const N: usize> InstalledSchedulerStorage<N> {
    /// Dynamic task capacity admitted by this storage.
    pub fn dynamic_capacity(&self) -> (r: usize)
        ensures
            r == N,
    {
        N
    }

    /// Snapshots the arena usage of the storage that was installed.
    pub fn metrics(&self, storage: &SchedulerStorage<N>) -> (r: HeapMetrics)
        ensures
            r.describes(storage.arena()),
    {
        storage.metrics()
    }
}

} // verus!
