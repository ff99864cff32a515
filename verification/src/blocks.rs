//! Memory blocks, and the record of the requests for them.
use vstd::prelude::*;
use crate::storage::{SchedulerStorage, STACK_ALIGNMENT};

verus! {

/// One request to an allocator, with its answer.
pub enum BlockCall {
    /// `size` bytes were asked for; the address is zero when there was no memory.
    Allocate { size: usize, address: usize },
    /// The largest block that could be had was asked for.
    Probe { largest: usize },
}

/// `address` is an answer to a request for `size` bytes: zero, or an aligned block that
/// ends inside the address space.
pub open spec fn answers(size: usize, address: usize) -> bool {
    &&& address % STACK_ALIGNMENT == 0
    &&& address != 0 ==> address + size <= usize::MAX
}

/// Where stacks and the memory of semaphores and mutexes come from. Whether there is
/// memory left is for the allocator to say; its log says what it was asked and what it
/// answered, in order.
pub trait BlockAllocator {
    spec fn log(&self) -> Seq<BlockCall>;

    /// Allocates `size` bytes; zero when there is no memory for them.
    fn allocate_block(&mut self, size: usize) -> (r: usize)
        ensures
            final(self).log() == old(self).log().push(
                BlockCall::Allocate { size, address: r },
            ),
            answers(size, r),
    ;

    /// The largest block that could be allocated now.
    fn largest_block(&mut self) -> (r: usize)
        ensures
            final(self).log() == old(self).log().push(BlockCall::Probe { largest: r }),
    ;
}

/// Scheduler storage with a record of what it was asked for.
pub struct RecordedStorage<'a, const N: usize> {
    storage: &'a SchedulerStorage<N>,
    calls: Ghost<Seq<BlockCall>>,
}

impl<'a, const N: usize> RecordedStorage<'a, N> {
    /// A record of `storage` that starts empty.
    pub fn new(storage: &'a SchedulerStorage<N>) -> (r: Self)
        ensures
            r.log() == Seq::<BlockCall>::empty(),
    {
        RecordedStorage { storage, calls: Ghost(Seq::empty()) }
    }
}

impl<'a, const N: usize> BlockAllocator for RecordedStorage<'a, N> {
    closed spec fn log(&self) -> Seq<BlockCall> {
        self.calls@
    }

    fn allocate_block(&mut self, size: usize) -> (r: usize) {
        let address: usize = self.storage.allocate(size);
        self.calls = Ghost(self.calls@.push(BlockCall::Allocate { size, address }));
        address
    }

    fn largest_block(&mut self) -> (r: usize) {
        let largest: usize = self.storage.largest_allocatable_stack();
        self.calls = Ghost(self.calls@.push(BlockCall::Probe { largest }));
        largest
    }
}

/// Memory that the functions of an application supply, with a record of what they were
/// asked for.
pub struct SuppliedBlocks<F: Fn(usize) -> usize, G: Fn() -> usize> {
    allocate: F,
    probe: G,
    calls: Ghost<Seq<BlockCall>>,
}

impl<F: Fn(usize) -> usize, G: Fn() -> usize> SuppliedBlocks<F, G> {
    /// The functions can always be called, and `allocate` gives proper answers.
    #[verifier::type_invariant]
    spec fn serviceable(self) -> bool {
        &&& forall|size: usize| #[trigger] call_requires(self.allocate, (size,))
        &&& forall|size: usize, address: usize| #[trigger]
            call_ensures(self.allocate, (size,), address) ==> answers(size, address)
        &&& call_requires(self.probe, ())
    }

    /// Memory from `allocate`, which gives zero when there is none left; `probe` tells the
    /// largest block that could be had. The record starts empty.
    pub fn new(allocate: F, probe: G) -> (r: Self)
        requires
            forall|size: usize| #[trigger] call_requires(allocate, (size,)),
            forall|size: usize, address: usize| #[trigger]
                call_ensures(allocate, (size,), address) ==> answers(size, address),
            call_requires(probe, ()),
        ensures
            r.log() == Seq::<BlockCall>::empty(),
    {
        SuppliedBlocks { allocate, probe, calls: Ghost(Seq::empty()) }
    }
}

impl<F: Fn(usize) -> usize, G: Fn() -> usize> BlockAllocator for SuppliedBlocks<F, G> {
    closed spec fn log(&self) -> Seq<BlockCall> {
        self.calls@
    }

    fn allocate_block(&mut self, size: usize) -> (r: usize) {
        proof {
            use_type_invariant(&*self);
        }
        let address: usize = (self.allocate)(size);
        self.calls = Ghost(self.calls@.push(BlockCall::Allocate { size, address }));
        address
    }

    fn largest_block(&mut self) -> (r: usize) {
        proof {
            use_type_invariant(&*self);
        }
        let largest: usize = (self.probe)();
        self.calls = Ghost(self.calls@.push(BlockCall::Probe { largest }));
        largest
    }
}

/// One answered request of `size` bytes for each of `blocks`.
pub open spec fn grants(size: usize, blocks: Seq<usize>) -> Seq<BlockCall> {
    Seq::new(blocks.len(), |i: int| BlockCall::Allocate { size, address: blocks[i] })
}

/// The blocks that the requests in `calls` were given, in order.
pub open spec fn granted(calls: Seq<BlockCall>) -> Seq<usize>
    decreases calls.len(),
{
    if calls.len() == 0 {
        Seq::empty()
    } else {
        let before = granted(calls.drop_last());
        match calls.last() {
            BlockCall::Allocate { address, .. } => if address != 0 {
                before.push(address)
            } else {
                before
            },
            BlockCall::Probe { .. } => before,
        }
    }
}

/// One more call adds the block that it was given, if there is one.
pub proof fn lemma_granted_push(calls: Seq<BlockCall>, call: BlockCall)
    ensures
        granted(calls.push(call)) == match call {
            BlockCall::Allocate { address, .. } => if address != 0 {
                granted(calls).push(address)
            } else {
                granted(calls)
            },
            BlockCall::Probe { .. } => granted(calls),
        },
{
    assert(calls.push(call).drop_last() =~= calls);
}

/// Requests that were all granted add exactly their blocks.
pub proof fn lemma_granted_add(calls: Seq<BlockCall>, size: usize, blocks: Seq<usize>)
    requires
        forall|i: int| 0 <= i < blocks.len() ==> (#[trigger] blocks[i]) != 0,
    ensures
        granted(calls + grants(size, blocks)) == granted(calls) + blocks,
    decreases blocks.len(),
{
    if blocks.len() == 0 {
        assert(calls + grants(size, blocks) =~= calls);
        assert(granted(calls) + blocks =~= granted(calls));
    } else {
        let fewer = blocks.drop_last();
        let last = BlockCall::Allocate { size, address: blocks.last() };
        lemma_granted_add(calls, size, fewer);
        lemma_granted_push(calls + grants(size, fewer), last);
        assert(calls + grants(size, blocks) =~= (calls + grants(size, fewer)).push(last));
        assert(granted(calls) + blocks =~= (granted(calls) + fewer).push(blocks.last()));
    }
}

} // verus!
