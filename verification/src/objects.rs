//! Semaphores and mutexes of the runtime, named by handles.
use vstd::prelude::*;
use crate::blocks;
use crate::blocks::{BlockAllocator, BlockCall};
use crate::config::{NIL, TASK_SLOT_COUNT};
use crate::error::{DriverError, MutexHandle, SemaphoreHandle, WaitOutcome, WaitTimeout};
use crate::kernel::Kernel;
use crate::model::{SchedModel, SwitchIntent};
use crate::nonzero::NonZeroUsize;
use crate::resource;
use crate::resource::{ResourceKind, ResourceSlot};
use crate::scheduler::{MutexState, Sched, SemState};
use crate::semaphore;
use crate::semaphore::WaitStep;
use crate::task::{State, Tcb};

verus! {

/// What follows a release: a switch to a task that the release made ready, or a
/// scheduling point to be requested. In either case the timer must be programmed anew.
#[derive(Clone, Copy, Debug, Eq, PartialEq, Structural)]
pub struct ReleaseStep {
    pub switch: Option<SwitchIntent>,
    pub reschedule: bool,
}

/// The answer to a request for a semaphore or a mutex. A block in `release` was allocated
/// for the request and is not used by it; zero is none.
pub struct ObjectOutcome<H> {
    pub result: Result<H, DriverError>,
    pub release: usize,
}

/// Whether tasks wait for a semaphore.
pub fn semaphore_state_has_waiters(state: &SemState) -> (r: bool)
    ensures
        r == (state.wait_head != NIL || state.wait_tail != NIL),
{
    state.wait_head != NIL || state.wait_tail != NIL
}

/// Whether a mutex is owned or waited for.
pub fn mutex_state_is_busy(state: &MutexState) -> (r: bool)
    ensures
        r == (state.owner != NIL || state.wait_head != NIL || state.wait_tail != NIL),
{
    state.owner != NIL || state.wait_head != NIL || state.wait_tail != NIL
}

/// How a finished wait is reported.
pub open spec fn outcome_of(granted: bool) -> WaitOutcome {
    if granted {
        WaitOutcome::Acquired
    } else {
        WaitOutcome::TimedOut
    }
}

impl SchedModel {
    /// Some task holds a grant of semaphore `sem` that it has not noticed yet.
    pub open spec fn sem_grant_pending(self, sem: int) -> bool {
        exists|slot: usize|
            slot < TASK_SLOT_COUNT && (#[trigger] self.task(slot)).granted_sem == sem + 1
    }

    /// What follows a release at `depth`: outside interrupts a waiting task that may
    /// take over does so, if a switch can be delivered.
    pub open spec fn release_step(self, depth: u16, enabled: bool, now: u64) -> (
        SchedModel,
        ReleaseStep,
    ) {
        if depth == 0 && enabled {
            let (m, target) = self.rescheduled(false, now);
            match target {
                Some((source, next)) => (
                    m.intent_counted(),
                    ReleaseStep { switch: Some(m.intent(source, next)), reschedule: false },
                ),
                None => (m, ReleaseStep { switch: None, reschedule: false }),
            }
        } else {
            (self, ReleaseStep { switch: None, reschedule: depth == 0 })
        }
    }
}

impl Sched {
    fn grant_pending(&self, sem: usize) -> (r: bool)
        requires
            self.wf(),
            sem < 32,
        ensures
            r == self@.sem_grant_pending(sem as int),
    {
        let mut slot: usize = 0;
        while slot < TASK_SLOT_COUNT
            invariant
                self.wf(),
                sem < 32,
                slot <= TASK_SLOT_COUNT,
                forall|x: usize| x < slot ==> (#[trigger] self@.task(x)).granted_sem != sem + 1,
            decreases TASK_SLOT_COUNT - slot,
        {
            assert(self@.tasks[slot as int] == self.tasks@[slot as int].unlinked());
            if self.tasks[slot].granted_sem == sem + 1 {
                assert(self@.task(slot).granted_sem == sem + 1);
                return true;
            }
            slot = slot + 1;
        }
        false
    }

    proof fn lemma_sem_ends(&self, sem: int)
        requires
            self.wf(),
            0 <= sem < 32,
        ensures
            self@.sem_waiters(sem).len() == 0 <==> (self.sems@[sem].wait_head == NIL
                && self.sems@[sem].wait_tail == NIL),
    {
        let l = self.linkage().list(32 + sem);
        assert(self@.sem_waiters(sem) == l);
        if l.len() > 0 {
            assert(l[0] < 17);
        }
    }

    proof fn lemma_mutex_ends(&self, mutex: int)
        requires
            self.wf(),
            0 <= mutex < 32,
        ensures
            self@.mutex_waiters(mutex).len() == 0 <==> (self.mutexes@[mutex].wait_head == NIL
                && self.mutexes@[mutex].wait_tail == NIL),
            self@.mutex_owner[mutex] == self.mutexes@[mutex].owner,
    {
        let l = self.linkage().list(64 + mutex);
        assert(self@.mutex_waiters(mutex) == l);
        if l.len() > 0 {
            assert(l[0] < 17);
        }
    }
}

impl Kernel {
    /// The table index of the live semaphore that a handle names.
    pub open spec fn live_semaphore(self, handle: SemaphoreHandle) -> Option<int> {
        self.handles.live(handle.raw, ResourceKind::Semaphore)
    }

    /// The table index of the live mutex that a handle names.
    pub open spec fn live_mutex(self, handle: MutexHandle) -> Option<int> {
        self.handles.live(handle.raw, ResourceKind::Mutex)
    }

    fn find_object(&self, raw: NonZeroUsize, kind: ResourceKind) -> (r: Result<usize, DriverError>)
        requires
            self.wf(),
        ensures
            match self.handles.live(raw, kind) {
                Some(index) => r == Ok::<usize, DriverError>(index as usize) && 0 <= index < 32,
                None => r == Err::<usize, _>(DriverError::InvalidHandle),
            },
    {
        match self.handles.find(raw, kind) {
            Some(index) => Ok(index),
            None => Err(DriverError::InvalidHandle),
        }
    }

    /// Everything but the scheduler and the handles is as in `other`.
    pub open spec fn same_clockwork(self, other: Kernel) -> bool {
        &&& self.interrupt_depth == other.interrupt_depth
        &&& self.timer_generation == other.timer_generation
        &&& self.start == other.start
    }

    /// `after` has given the vacant slot `index` to an object of `kind` with memory at
    /// `address`, and `raw` names it.
    pub open spec fn handle_given(
        self,
        after: Kernel,
        index: int,
        kind: ResourceKind,
        address: usize,
        raw: NonZeroUsize,
    ) -> bool {
        let generation = resource::next_generation(self.handles.slots@[index].generation);
        &&& raw@ == resource::handle_of(index, generation)
        &&& after.handles.slots@ == self.handles.slots@.update(
            index,
            ResourceSlot { pointer: address, generation, kind },
        )
        &&& after.handles.live(raw, kind) == Some(index)
    }

    /// `after` has ended the life of the handle in slot `index`.
    pub open spec fn handle_taken(self, after: Kernel, index: int) -> bool {
        after.handles.slots@ == self.handles.slots@.update(
            index,
            ResourceSlot { pointer: 0, ..self.handles.slots@[index] },
        )
    }

    fn give_handle(&mut self, address: NonZeroUsize, kind: ResourceKind) -> (r: Result<
        NonZeroUsize,
        DriverError,
    >)
        requires
            old(self).wf(),
        ensures
            final(self).wf(),
            final(self).sched == old(self).sched,
            final(self).same_clockwork(*old(self)),
            match old(self).handles.vacancy_from(0) {
                Some(index) => {
                    &&& r is Ok
                    &&& old(self).handle_given(*final(self), index, kind, address@, r->Ok_0)
                },
                None => {
                    &&& r == Err::<NonZeroUsize, _>(DriverError::ResourceExhausted)
                    &&& *final(self) == *old(self)
                },
            },
    {
        self.handles.insert(address, kind)
    }

    fn end_handle(&mut self, raw: NonZeroUsize, kind: ResourceKind) -> (r: usize)
        requires
            old(self).wf(),
            old(self).handles.live(raw, kind) is Some,
        ensures
            final(self).wf(),
            final(self).sched == old(self).sched,
            final(self).same_clockwork(*old(self)),
            r == old(self).handles.slots@[old(self).handles.live(raw, kind)->0].pointer,
            old(self).handle_taken(*final(self), old(self).handles.live(raw, kind)->0),
    {
        match self.handles.remove(raw, kind) {
            Ok(address) => address.get(),
            Err(_) => 0,
        }
    }

    // ---- Semaphores --------------------------------------------------------------
    /// Creates a counting semaphore. Its memory comes out of the same budget as the stacks:
    /// without it, or without a vacant handle, there is no semaphore.
    pub fn semaphore_create<A: BlockAllocator>(&mut self, allocator: &mut A, initial: u32) -> (r:
        ObjectOutcome<SemaphoreHandle>)
        requires
            old(self).wf(),
            old(self).sched@.coherent(),
        ensures
            final(self).wf(),
            final(self).sched@.coherent(),
            final(self).same_clockwork(*old(self)),
            if initial > i32::MAX {
                &&& r.result == Err::<SemaphoreHandle, _>(DriverError::Runtime)
                &&& r.release == 0
                &&& final(self).same_shell(*old(self))
                &&& final(self).sched@ == old(self).sched@
                &&& final(allocator).log() == old(allocator).log()
            } else {
                exists|address: usize|
                    {
                        &&& #[trigger] blocks::answers(
                            core::mem::size_of::<SemState>(),
                            address,
                        )
                        &&& final(allocator).log() == old(allocator).log().push(
                            BlockCall::Allocate { size: core::mem::size_of::<SemState>(), address },
                        )
                        &&& match old(self).handles.vacancy_from(0) {
                            Some(index) if address != 0 => {
                                &&& r.result is Ok
                                &&& r.release == 0
                                &&& old(self).handle_given(
                                    *final(self),
                                    index,
                                    ResourceKind::Semaphore,
                                    address,
                                    r.result->Ok_0.raw,
                                )
                                &&& final(self).sched@ == (SchedModel {
                                    sem_counts: old(self).sched@.sem_counts.update(
                                        index,
                                        initial as i32,
                                    ),
                                    ..old(self).sched@
                                })
                            },
                            _ => {
                                &&& r.result == Err::<SemaphoreHandle, _>(
                                    DriverError::ResourceExhausted,
                                )
                                &&& r.release == address
                                &&& final(self).same_shell(*old(self))
                                &&& final(self).sched@ == old(self).sched@
                            },
                        }
                    }
            },
    {
        if initial > i32::MAX as u32 {
            return ObjectOutcome { result: Err(DriverError::Runtime), release: 0 };
        }
        let size: usize = core::mem::size_of::<SemState>();
        let address: usize = allocator.allocate_block(size);
        assert(size == core::mem::size_of::<SemState>());
        assert(blocks::answers(core::mem::size_of::<SemState>(), address));
        let raw = match NonZeroUsize::new(address) {
            Some(raw) => raw,
            None => {
                return ObjectOutcome { result: Err(DriverError::ResourceExhausted), release: 0 };
            },
        };
        let index: usize = match self.handles.vacancy() {
            Some(index) => index,
            None => {
                return ObjectOutcome {
                    result: Err(DriverError::ResourceExhausted),
                    release: address,
                };
            },
        };
        let ghost m0 = self.sched@;
        self.sched.set_sem_count(index, initial as i32);
        proof {
            m0.lemma_coherent_frame(self.sched@);
        }
        match self.give_handle(raw, ResourceKind::Semaphore) {
            Ok(raw) => ObjectOutcome { result: Ok(SemaphoreHandle { raw }), release: 0 },
            Err(error) => ObjectOutcome { result: Err(error), release: address },
        }
    }

    /// Takes one count of a semaphore, or parks the calling task until one is granted.
    /// After parking, the timer must be programmed anew and another task chosen; when the
    /// task runs again it finishes its wait.
    pub fn semaphore_down(
        &mut self,
        semaphore: SemaphoreHandle,
        timeout: WaitTimeout,
        machine_interrupts_enabled: bool,
        now: u64,
    ) -> (r: Result<WaitStep, DriverError>)
        requires
            old(self).wf(),
            old(self).sched@.coherent(),
            old(self).start is Some,
            old(self).live_semaphore(semaphore) matches Some(index) ==> (
            old(self).sched@.sem_counts[index] <= 0 && timeout.ms() != 0 && old(self).delivers(
                machine_interrupts_enabled,
            ) ==> old(self).in_thread()),
        ensures
            final(self).wf(),
            final(self).sched@.coherent(),
            final(self).same_shell(*old(self)),
            match old(self).live_semaphore(semaphore) {
                Some(index) => (final(self).sched@, r) == old(self).sched@.sem_down(
                    index,
                    timeout.ms(),
                    now,
                    old(self).delivers(machine_interrupts_enabled),
                ),
                None => {
                    &&& r == Err::<WaitStep, _>(DriverError::InvalidHandle)
                    &&& final(self).sched@ == old(self).sched@
                },
            },
    {
        let index: usize = match self.find_object(semaphore.raw, ResourceKind::Semaphore) {
            Ok(index) => index,
            Err(error) => {
                return Err(error);
            },
        };
        let delivery = self.can_deliver(machine_interrupts_enabled);
        self.sched.semaphore_down(index, timeout.into_ms(), now, delivery)
    }

    /// How the wait of the calling task for a semaphore ended.
    pub fn finish_semaphore_wait(&mut self) -> (r: WaitOutcome)
        requires
            old(self).wf(),
            old(self).sched@.coherent(),
        ensures
            final(self).wf(),
            final(self).sched@.coherent(),
            final(self).same_shell(*old(self)),
            final(self).sched@ == old(self).sched@.sem_grant_consumed(),
            r == outcome_of(old(self).sched@.task(old(self).sched@.current).sem_granted),
    {
        if self.sched.consume_semaphore_grant() {
            WaitOutcome::Acquired
        } else {
            WaitOutcome::TimedOut
        }
    }

    fn after_release(&mut self, machine_interrupts_enabled: bool, now: u64) -> (r: ReleaseStep)
        requires
            old(self).wf(),
            old(self).sched@.coherent(),
        ensures
            final(self).wf(),
            final(self).sched@.coherent(),
            final(self).same_shell(*old(self)),
            (final(self).sched@, r) == old(self).sched@.release_step(
                old(self).interrupt_depth,
                machine_interrupts_enabled,
                now,
            ),
    {
        if self.interrupt_depth == 0 && machine_interrupts_enabled {
            match self.sched.take_preemption_target(now) {
                Some((source, next)) => {
                    let intent = self.sched.prepare_switch_intent(source, next);
                    ReleaseStep { switch: Some(intent), reschedule: false }
                },
                None => ReleaseStep { switch: None, reschedule: false },
            }
        } else {
            ReleaseStep { switch: None, reschedule: self.interrupt_depth == 0 }
        }
    }

    /// Releases one count of a semaphore: the best waiter receives it, or it is kept.
    pub fn semaphore_up(
        &mut self,
        semaphore: SemaphoreHandle,
        machine_interrupts_enabled: bool,
        now: u64,
    ) -> (r: Result<ReleaseStep, DriverError>)
        requires
            old(self).wf(),
            old(self).sched@.coherent(),
            old(self).live_semaphore(semaphore) matches Some(index)
                ==> old(self).sched@.sem_releasable(index),
        ensures
            final(self).wf(),
            final(self).sched@.coherent(),
            final(self).same_shell(*old(self)),
            match old(self).live_semaphore(semaphore) {
                Some(index) => {
                    &&& r is Ok
                    &&& (final(self).sched@, r->Ok_0) == old(self).sched@.sem_released(
                        index,
                        now,
                    ).release_step(old(self).interrupt_depth, machine_interrupts_enabled, now)
                },
                None => {
                    &&& r == Err::<ReleaseStep, _>(DriverError::InvalidHandle)
                    &&& final(self).sched@ == old(self).sched@
                },
            },
    {
        let index: usize = match self.find_object(semaphore.raw, ResourceKind::Semaphore) {
            Ok(index) => index,
            Err(error) => {
                return Err(error);
            },
        };
        self.sched.release_semaphore_locked(index, now);
        Ok(self.after_release(machine_interrupts_enabled, now))
    }

    /// Destroys a semaphore that nobody waits for and whose grants have all been noticed.
    /// The memory that it had must be released.
    pub fn semaphore_destroy(&mut self, semaphore: SemaphoreHandle) -> (r: Result<usize, DriverError>)
        requires
            old(self).wf(),
            old(self).sched@.coherent(),
        ensures
            final(self).wf(),
            final(self).sched@ == old(self).sched@,
            final(self).same_clockwork(*old(self)),
            match old(self).live_semaphore(semaphore) {
                Some(index) => if old(self).sched@.sem_waiters(index).len() > 0
                    || old(self).sched@.sem_grant_pending(index) {
                    &&& r == Err::<usize, _>(DriverError::InvalidContext)
                    &&& final(self).same_shell(*old(self))
                } else {
                    &&& r == Ok::<usize, DriverError>(old(self).handles.slots@[index].pointer)
                    &&& old(self).handle_taken(*final(self), index)
                },
                None => {
                    &&& r == Err::<usize, _>(DriverError::InvalidHandle)
                    &&& final(self).same_shell(*old(self))
                },
            },
    {
        let index: usize = match self.find_object(semaphore.raw, ResourceKind::Semaphore) {
            Ok(index) => index,
            Err(error) => {
                return Err(error);
            },
        };
        proof {
            self.sched.lemma_sem_ends(index as int);
        }
        if semaphore_state_has_waiters(&self.sched.sems[index]) || self.sched.grant_pending(index) {
            return Err(DriverError::InvalidContext);
        }
        let address: usize = self.end_handle(semaphore.raw, ResourceKind::Semaphore);
        Ok(address)
    }

    // ---- Mutexes -------------------------------------------------------------------
    /// Creates a recursive mutex. Its memory comes out of the same budget as the stacks:
    /// without it, or without a vacant handle, there is no mutex.
    pub fn mutex_create<A: BlockAllocator>(&mut self, allocator: &mut A) -> (r: ObjectOutcome<
        MutexHandle,
    >)
        requires
            old(self).wf(),
        ensures
            final(self).wf(),
            final(self).sched@ == old(self).sched@,
            final(self).same_clockwork(*old(self)),
            exists|address: usize|
                {
                    &&& #[trigger] blocks::answers(core::mem::size_of::<MutexState>(), address)
                    &&& final(allocator).log() == old(allocator).log().push(
                        BlockCall::Allocate { size: core::mem::size_of::<MutexState>(), address },
                    )
                    &&& match old(self).handles.vacancy_from(0) {
                        Some(index) if address != 0 => {
                            &&& r.result is Ok
                            &&& r.release == 0
                            &&& old(self).handle_given(
                                *final(self),
                                index,
                                ResourceKind::Mutex,
                                address,
                                r.result->Ok_0.raw,
                            )
                        },
                        _ => {
                            &&& r.result == Err::<MutexHandle, _>(DriverError::ResourceExhausted)
                            &&& r.release == address
                            &&& final(self).same_shell(*old(self))
                        },
                    }
                },
    {
        let size: usize = core::mem::size_of::<MutexState>();
        let address: usize = allocator.allocate_block(size);
        assert(size == core::mem::size_of::<MutexState>());
        assert(blocks::answers(core::mem::size_of::<MutexState>(), address));
        let raw = match NonZeroUsize::new(address) {
            Some(raw) => raw,
            None => {
                return ObjectOutcome { result: Err(DriverError::ResourceExhausted), release: 0 };
            },
        };
        match self.give_handle(raw, ResourceKind::Mutex) {
            Ok(raw) => ObjectOutcome { result: Ok(MutexHandle { raw }), release: 0 },
            Err(error) => ObjectOutcome { result: Err(error), release: address },
        }
    }

    /// Takes a mutex, or parks the calling task until it is handed over. After parking,
    /// the timer must be programmed anew and another task chosen; when the task runs
    /// again it finishes its wait.
    pub fn mutex_lock(
        &mut self,
        mutex: MutexHandle,
        timeout: WaitTimeout,
        machine_interrupts_enabled: bool,
        now: u64,
    ) -> (r: Result<WaitStep, DriverError>)
        requires
            old(self).wf(),
            old(self).sched@.coherent(),
            old(self).start is Some,
            old(self).live_mutex(mutex) matches Some(index) ==> (
            old(self).sched@.mutex_owner[index] != NIL && timeout.ms() != 0 && old(self).delivers(
                machine_interrupts_enabled,
            ) ==> old(self).in_thread()),
        ensures
            final(self).wf(),
            final(self).sched@.coherent(),
            final(self).same_shell(*old(self)),
            match old(self).live_mutex(mutex) {
                Some(index) => (final(self).sched@, r) == old(self).sched@.mutex_lock(
                    index,
                    timeout.ms(),
                    now,
                    old(self).delivers(machine_interrupts_enabled),
                ),
                None => {
                    &&& r == Err::<WaitStep, _>(DriverError::InvalidHandle)
                    &&& final(self).sched@ == old(self).sched@
                },
            },
    {
        let index: usize = match self.find_object(mutex.raw, ResourceKind::Mutex) {
            Ok(index) => index,
            Err(error) => {
                return Err(error);
            },
        };
        let delivery = self.can_deliver(machine_interrupts_enabled);
        proof {
            self.sched@.lemma_mutex_lock_reservations(
                index as int,
                timeout.ms(),
                now,
                delivery,
            );
        }
        self.sched.mutex_lock(index, timeout.into_ms(), now, delivery)
    }

    /// How the wait of the calling task for a mutex ended.
    pub fn finish_mutex_wait(&mut self) -> (r: WaitOutcome)
        requires
            old(self).wf(),
            old(self).sched@.coherent(),
        ensures
            final(self).wf(),
            final(self).sched@.coherent(),
            final(self).same_shell(*old(self)),
            final(self).sched@ == old(self).sched@.mutex_grant_consumed(),
            r == outcome_of(old(self).sched@.task(old(self).sched@.current).sem_granted),
    {
        if self.sched.consume_mutex_grant() {
            WaitOutcome::Acquired
        } else {
            WaitOutcome::TimedOut
        }
    }

    /// Releases a mutex once; the last release hands it to the best waiter.
    pub fn mutex_unlock(
        &mut self,
        mutex: MutexHandle,
        machine_interrupts_enabled: bool,
        now: u64,
    ) -> (r: Result<ReleaseStep, DriverError>)
        requires
            old(self).wf(),
            old(self).sched@.coherent(),
            old(self).in_thread(),
            old(self).sched@.task(old(self).sched@.current).granted_mutex == 0,
        ensures
            final(self).wf(),
            final(self).sched@.coherent(),
            final(self).same_shell(*old(self)),
            match old(self).live_mutex(mutex) {
                Some(index) => {
                    let (m, step) = old(self).sched@.mutex_unlock(index, now);
                    match step {
                        Ok(true) => {
                            &&& r is Ok
                            &&& (final(self).sched@, r->Ok_0) == m.release_step(
                                old(self).interrupt_depth,
                                machine_interrupts_enabled,
                                now,
                            )
                        },
                        Ok(false) => {
                            &&& r == Ok::<_, DriverError>(
                                ReleaseStep { switch: None, reschedule: false },
                            )
                            &&& final(self).sched@ == m
                        },
                        Err(error) => r == Err::<ReleaseStep, _>(error) && final(self).sched@ == m,
                    }
                },
                None => {
                    &&& r == Err::<ReleaseStep, _>(DriverError::InvalidHandle)
                    &&& final(self).sched@ == old(self).sched@
                },
            },
    {
        let index: usize = match self.find_object(mutex.raw, ResourceKind::Mutex) {
            Ok(index) => index,
            Err(error) => {
                return Err(error);
            },
        };
        proof {
            self.sched@.lemma_mutex_unlock_reservations(index as int, now);
        }
        match self.sched.mutex_unlock(index, now) {
            Ok(true) => Ok(self.after_release(machine_interrupts_enabled, now)),
            Ok(false) => Ok(ReleaseStep { switch: None, reschedule: false }),
            Err(error) => Err(error),
        }
    }

    /// Destroys a mutex that nobody owns or waits for. The memory that it had must be
    /// released.
    pub fn mutex_destroy(&mut self, mutex: MutexHandle) -> (r: Result<usize, DriverError>)
        requires
            old(self).wf(),
        ensures
            final(self).wf(),
            final(self).sched@ == old(self).sched@,
            final(self).same_clockwork(*old(self)),
            match old(self).live_mutex(mutex) {
                Some(index) => if old(self).sched@.mutex_owner[index] != NIL
                    || old(self).sched@.mutex_waiters(index).len() > 0 {
                    &&& r == Err::<usize, _>(DriverError::InvalidContext)
                    &&& final(self).same_shell(*old(self))
                } else {
                    &&& r == Ok::<usize, DriverError>(old(self).handles.slots@[index].pointer)
                    &&& old(self).handle_taken(*final(self), index)
                },
                None => {
                    &&& r == Err::<usize, _>(DriverError::InvalidHandle)
                    &&& final(self).same_shell(*old(self))
                },
            },
    {
        let index: usize = match self.find_object(mutex.raw, ResourceKind::Mutex) {
            Ok(index) => index,
            Err(error) => {
                return Err(error);
            },
        };
        proof {
            self.sched.lemma_mutex_ends(index as int);
        }
        if mutex_state_is_busy(&self.sched.mutexes[index]) {
            return Err(DriverError::InvalidContext);
        }
        let address: usize = self.end_handle(mutex.raw, ResourceKind::Mutex);
        Ok(address)
    }
}

impl SchedModel {
    proof fn lemma_mutex_lock_reservations(
        self,
        mutex: int,
        timeout_ms: u32,
        now: u64,
        delivery: bool,
    )
        requires
            self.coherent(),
            0 <= mutex < 32,
        ensures
            self.mutex_lock(mutex, timeout_ms, now, delivery).0.reservations == self.reservations,
    {
        let owner = self.mutex_owner[mutex];
        if owner != NIL && owner != self.current {
            let wake_at = semaphore::wait_deadline(timeout_ms, now);
            let parked = self.mutex_parked(mutex, wake_at);
            let t = Tcb {
                state: State::Blocked,
                wake_at,
                waiting_mutex: (mutex + 1) as usize,
                sem_granted: false,
                ..self.task(self.current)
            };
            assert(self.tasks[self.current as int].priority < 32);
            assert(self.tasks[self.current as int].granted_sem <= 32);
            self.lemma_fits_with_task(self.current, t);
            assert(parked.fits());
            parked.lemma_inheritance_added_posed(owner, self.task(self.current).priority);
        }
    }

    proof fn lemma_mutex_unlock_reservations(self, mutex: int, now: u64)
        requires
            self.coherent(),
            0 <= mutex < 32,
        ensures
            self.mutex_unlock(mutex, now).0.reservations == self.reservations,
    {
        if self.mutex_owner[mutex] == self.current && self.mutex_depth[mutex] == 1 {
            let m = self.with_mutex(mutex, self.current, 0);
            assert(m.mutex_owner =~= self.mutex_owner);
            self.lemma_coherent_frame(m);
            m.lemma_mutex_released_stirred(mutex, self.current, now);
        }
    }
}

} // verus!
