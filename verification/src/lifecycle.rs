//! The life of a task: start, creation, yield, sleep and exit.
use vstd::prelude::*;
use crate::config::{Diagnostics, IDLE_SLOT, TASK_SLOT_COUNT};
use crate::context::{TaskContext, INITIAL_MSTATUS, TASK_CONTEXT_BYTES};
use crate::donation;
use crate::error::DriverError;
use crate::metrics;
use crate::metrics::bump;
use crate::model::SchedModel;
use crate::reservation;
use crate::reservation::following_generation;
use crate::scheduler::Sched;
use crate::scheduling::{BudgetState, RunPolicy};
use crate::task::{State, Tcb};

verus! {

/// What the scheduler has to know of the machine when it starts.
#[derive(Clone, Copy, Debug, Eq, PartialEq, Structural)]
pub struct BootContext {
    /// Clock at start.
    pub now: u64,
    /// End of the idle stack, aligned to 16 bytes.
    pub idle_top: usize,
    /// Address at which every task is first entered.
    pub trampoline: u32,
    /// Address of the idle loop.
    pub idle_entry: usize,
    /// Thread pointer inherited by every task.
    pub tp: u32,
    /// Floating-point control word inherited by every task.
    pub fcsr: u32,
}

/// A task to be created.
#[derive(Clone, Copy, Debug, Eq, PartialEq, Structural)]
pub struct SpawnRequest {
    /// Address of the task's entry function.
    pub entry: usize,
    pub arg: usize,
    /// Requested stack bytes.
    pub stack_size: usize,
    /// Priority level, 0 to 31.
    pub priority: u8,
    pub run_policy: RunPolicy,
    /// Address at which every task is first entered.
    pub trampoline: u32,
    /// Thread pointer inherited by the task.
    pub tp: u32,
    /// Floating-point control word inherited by the task.
    pub fcsr: u32,
}

/// The 16-byte aligned end of a stack.
pub open spec fn top_of(stack: usize, size: usize) -> usize {
    (stack + size - (stack + size) % 16) as usize
}

pub fn stack_top(stack: usize, size: usize) -> (r: usize)
    requires
        stack + size <= usize::MAX,
    ensures
        r == top_of(stack, size),
        r % 16 == 0,
{
    let end: usize = stack + size;
    end - end % 16
}

/// The low word of an address.
pub open spec fn low_word(address: usize) -> u32 {
    #[verifier::truncate]
    (address as u32)
}

fn word_of(address: usize) -> (r: u32)
    ensures
        r == low_word(address),
{
    #[verifier::truncate]
    (address as u32)
}

impl SchedModel {
    /// No task has been created, nothing is queued and no mutex is owned.
    pub open spec fn untouched(self) -> bool {
        let fresh = SchedModel::initial(self.policy, self.time_slice);
        &&& self.tasks == fresh.tasks
        &&& self.queues == fresh.queues
        &&& self.mutex_owner == fresh.mutex_owner
    }

    /// The adopted main task at start.
    pub open spec fn main_task(self, boot: BootContext) -> Tcb {
        let t = self.task(0);
        Tcb {
            state: State::Running,
            identity_generation: 1,
            run_policy: RunPolicy::Cooperative,
            budget: BudgetState::fresh(RunPolicy::Cooperative, boot.now).dispatched(boot.now),
            metrics: t.metrics.dispatched(boot.now),
            ..t
        }
    }

    /// The idle thread at start. With trap scheduling it has a first trap frame.
    pub open spec fn idle_task(self, boot: BootContext, trap: bool) -> Tcb {
        let t = self.task(IDLE_SLOT);
        Tcb {
            ctx: TaskContext::entering(
                INITIAL_MSTATUS,
                boot.trampoline,
                boot.tp,
                low_word(boot.idle_top),
                boot.fcsr,
            ),
            saved_frame: if trap {
                (boot.idle_top - TASK_CONTEXT_BYTES) as usize
            } else {
                t.saved_frame
            },
            state: State::Ready,
            stack: 0,
            entry: Some(boot.idle_entry),
            arg: 0,
            base_priority: 31,
            priority: 31,
            identity_generation: 1,
            run_policy: RunPolicy::Cooperative,
            budget: BudgetState::fresh(RunPolicy::Cooperative, boot.now),
            metrics: t.metrics.made_ready(boot.now),
            ..t
        }
    }

    /// The scheduler adopts the caller as its main task and, unless a firmware-wide
    /// policy is in force, sets up the idle thread.
    pub open spec fn booted(self, boot: BootContext, trap: bool) -> SchedModel {
        if self.started {
            self
        } else {
            let m = SchedModel {
                current: 0,
                started: true,
                slot_generations: self.slot_generations.update(0, 1),
                ..self.with_task(0, self.main_task(boot))
            };
            if self.policy is None {
                SchedModel {
                    slot_generations: m.slot_generations.update(IDLE_SLOT as int, 1),
                    ..m.with_task(IDLE_SLOT, self.idle_task(boot, trap))
                }
            } else {
                m
            }
        }
    }

    /// The block of a new task in `slot`.
    pub open spec fn new_task(
        self,
        slot: usize,
        request: SpawnRequest,
        stack: usize,
        size: usize,
        now: u64,
        trap: bool,
    ) -> Tcb {
        let t = self.task(slot);
        let top = top_of(stack, size);
        Tcb {
            ctx: TaskContext::entering(
                INITIAL_MSTATUS,
                request.trampoline,
                request.tp,
                low_word(top),
                request.fcsr,
            ),
            saved_frame: if trap {
                (top - TASK_CONTEXT_BYTES) as usize
            } else {
                t.saved_frame
            },
            stack,
            stack_size: size,
            entry: Some(request.entry),
            arg: request.arg,
            wake_at: 0,
            base_priority: request.priority,
            priority: request.priority,
            identity_generation: reservation::next_generation(self.slot_generations[slot as int]),
            run_policy: request.run_policy,
            budget: BudgetState::fresh(request.run_policy, now),
            ..t
        }
    }

    /// A new task in the free slot `slot` is ready to run on its stack.
    pub open spec fn spawned(
        self,
        slot: usize,
        request: SpawnRequest,
        stack: usize,
        size: usize,
        now: u64,
        trap: bool,
    ) -> SchedModel {
        SchedModel {
            slot_generations: self.slot_generations.update(
                slot as int,
                reservation::next_generation(self.slot_generations[slot as int]),
            ),
            ..self.with_task(slot, self.new_task(slot, request, stack, size, now, trap))
        }.made_ready(slot, now)
    }

    /// The current task gives way at `now`: due tasks wake first, then the best ready
    /// task is taken before the current one queues behind its equals.
    pub open spec fn yield_step(self, now: u64) -> (SchedModel, Option<usize>) {
        self.with_diagnostics(
            Diagnostics { yields: metrics::bumped(self.diagnostics.yields), ..self.diagnostics },
        ).all_woken(now).yielded(self.current, now)
    }

    /// The current task sleeps until `wake_at`.
    pub open spec fn slept(self, wake_at: u64) -> SchedModel {
        self.with_diagnostics(
            Diagnostics { sleeps: metrics::bumped(self.diagnostics.sleeps), ..self.diagnostics },
        ).with_task(
            self.current,
            Tcb { state: State::Sleeping, wake_at, ..self.task(self.current) },
        )
    }

    /// Nobody waits for a mutex that `slot` owns.
    pub open spec fn owes_nobody(self, slot: usize) -> bool {
        forall|mutex: int|
            0 <= mutex < 32 && #[trigger] self.mutex_owner[mutex] == slot ==> self.mutex_waiters(
                mutex,
            ).len() == 0
    }

    /// The current task ends: its slot is free again and its stack waits to be
    /// released.
    pub open spec fn exited(self) -> SchedModel {
        let stack = self.task(self.current).stack;
        let m = self.with_task(self.current, Tcb::blank());
        if stack == 0 {
            m
        } else {
            SchedModel { retired: m.retired.push(stack), ..m }
        }
    }

    // ---- Coherence ---------------------------------------------------------
    /// A block in a loose slot without donations may be replaced altogether.
    pub(crate) proof fn lemma_replaced_block(self, slot: usize, task: Tcb)
        requires
            self.coherent(),
            slot < TASK_SLOT_COUNT,
            self.loose(slot),
            self.task(slot).waiting_mutex == 0,
            task.waiting_sem == 0,
            task.waiting_mutex == 0,
            task.granted_sem <= 32,
            task.granted_mutex == 0 || task.granted_mutex == self.task(slot).granted_mutex,
            task.priority < 32,
            task.base_priority < 32,
            task.inherited_waiters@ =~= self.task(slot).inherited_waiters@,
        ensures
            self.with_task(slot, task).coherent(),
            self.with_task(slot, task).loose(slot),
    {
        let n = self.with_task(slot, task);
        assert(task.inherited_waiters =~= self.task(slot).inherited_waiters);
        assert(self.tasks[slot as int].granted_mutex <= 32);
        self.lemma_fits_with_task(slot, task);
        assert forall|x: usize| x < TASK_SLOT_COUNT && x != slot implies #[trigger] n.task(x)
            == self.task(x) by {}
        assert forall|q: int, x: usize|
            #![trigger n.queues[q].contains(x)]
            0 <= q < 96 && n.queues[q].contains(x) implies n.seated(q, x) by {
            assert(self.queues[q].contains(x));
            assert(x != slot);
        }
        assert(n.waits_live()) by {
            assert forall|x: usize| x < TASK_SLOT_COUNT implies {
                let t = #[trigger] n.task(x);
                &&& t.waiting_sem != 0 ==> t.state == State::Blocked && n.queues[32 + t.waiting_sem
                    - 1].contains(x)
                &&& t.waiting_mutex != 0 ==> t.state == State::Blocked && n.queues[64
                    + t.waiting_mutex - 1].contains(x)
            } by {
                if x != slot {
                    assert(n.task(x) == self.task(x));
                }
            }
        }
        self.lemma_same_graph(n);
        self.lemma_grants_frame(n);
    }

    /// A task without waiters owes no donation.
    pub(crate) proof fn lemma_owes_nobody(self, slot: usize, level: u8)
        requires
            self.coherent(),
            slot < TASK_SLOT_COUNT,
            level < 32,
            self.owes_nobody(slot),
        ensures
            self.task(slot).inherited_waiters@[level as int] == 0,
    {
        assert(self.donations(slot, level) == self.donors(slot, level));
        assert forall|x: usize| x < TASK_SLOT_COUNT implies !self.donates(x, slot, level) by {
            if self.donates(x, slot, level) {
                let mutex = self.task(x).waiting_mutex - 1;
                assert(self.tasks[x as int].waiting_mutex <= 32);
                assert(self.mutex_owner[mutex] == slot);
                assert(self.mutex_waiters(mutex).len() == 0);
            }
        }
        donation::lemma_count_bounds(
            |x: usize| self.donates(x, slot, level),
            TASK_SLOT_COUNT as nat,
        );
    }
}

impl SchedModel {
    pub(crate) proof fn lemma_booted(self, boot: BootContext, trap: bool)
        requires
            self.coherent(),
            !self.started ==> self.untouched(),
        ensures
            self.booted(boot, trap).coherent(),
            self.tidy() ==> self.booted(boot, trap).tidy(),
            self.lone_runner() ==> self.booted(boot, trap).lone_runner(),
    {
        if !self.started {
            let n = self.booted(boot, trap);
            assert forall|x: usize| x < TASK_SLOT_COUNT implies #[trigger] self.task(x)
                == Tcb::blank() by {}
            assert forall|x: usize| x < TASK_SLOT_COUNT implies #[trigger] self.loose(x) by {
                assert forall|q: int| 0 <= q < 96 implies !(#[trigger] self.queues[q]).contains(
                    x,
                ) by {}
            }
            assert(self.task(0) == Tcb::blank() && self.loose(0));
            assert(self.task(1) == Tcb::blank() && self.loose(1));
            let main = self.main_task(boot);
            self.lemma_replaced_block(0, main);
            let m = self.with_task(0, main);
            if self.policy is None {
                let idle = self.idle_task(boot, trap);
                assert(m.loose(1)) by {
                    assert forall|q: int| 0 <= q < 96 implies !(#[trigger] m.queues[q]).contains(
                        1,
                    ) by {
                        assert(!self.queues[q].contains(1));
                    }
                }
                assert(m.task(1) == self.task(1));
                m.lemma_replaced_block(1, idle);
                let k = m.with_task(1, idle);
                k.lemma_coherent_frame(n);
                self.lemma_tidy_frame(n);
                assert forall|x: usize|
                    x < TASK_SLOT_COUNT && (#[trigger] n.task(x)).state
                        == State::Running implies x == n.current by {
                    if x > 1 {
                        assert(n.task(x) == self.task(x));
                    }
                }
            } else {
                m.lemma_coherent_frame(n);
                self.lemma_tidy_frame(n);
                assert forall|x: usize|
                    x < TASK_SLOT_COUNT && (#[trigger] n.task(x)).state
                        == State::Running implies x == n.current by {
                    if x > 0 {
                        assert(n.task(x) == self.task(x));
                    }
                }
            }
        }
    }

    pub(crate) proof fn lemma_spawned(
        self,
        slot: usize,
        request: SpawnRequest,
        stack: usize,
        size: usize,
        now: u64,
        trap: bool,
    )
        requires
            self.coherent(),
            slot < TASK_SLOT_COUNT,
            self.task(slot).state == State::Free,
            request.priority < 32,
        ensures
            ({
                let t = self.new_task(slot, request, stack, size, now, trap);
                let m = SchedModel {
                    slot_generations: self.slot_generations.update(
                        slot as int,
                        reservation::next_generation(self.slot_generations[slot as int]),
                    ),
                    ..self.with_task(slot, t)
                };
                &&& m.coherent()
                &&& m.loose(slot)
                &&& m.task(slot).waiting_sem == 0
                &&& m.task(slot).waiting_mutex == 0
            }),
            self.spawned(slot, request, stack, size, now, trap).coherent(),
    {
        let t = self.new_task(slot, request, stack, size, now, trap);
        assert(self.tasks[slot as int].granted_sem <= 32);
        self.lemma_unqueued_when_idle_state(slot);
        self.lemma_replaced_block(slot, t);
        let k = self.with_task(slot, t);
        let m = SchedModel {
            slot_generations: self.slot_generations.update(
                slot as int,
                reservation::next_generation(self.slot_generations[slot as int]),
            ),
            ..k
        };
        k.lemma_coherent_frame(m);
        assert(m.loose(slot)) by {
            assert forall|q: int| 0 <= q < 96 implies !(#[trigger] m.queues[q]).contains(slot) by {
                assert(!k.queues[q].contains(slot));
            }
        }
        m.lemma_made_ready_coherent(slot, now);
    }

    pub(crate) proof fn lemma_exited(self)
        requires
            self.coherent(),
            self.task(self.current).state == State::Running,
            self.owes_nobody(self.current),
        ensures
            self.with_task(self.current, Tcb::blank()).coherent(),
            self.exited().coherent(),
    {
        let cur = self.current;
        self.lemma_unqueued_when_idle_state(cur);
        assert forall|level: int| 0 <= level < 32 implies #[trigger] self.task(
            cur,
        ).inherited_waiters@[level] == 0 by {
            self.lemma_owes_nobody(cur, level as u8);
        }
        assert(Tcb::blank().inherited_waiters@ =~= self.task(cur).inherited_waiters@);
        self.lemma_replaced_block(cur, Tcb::blank());
        self.with_task(cur, Tcb::blank()).lemma_coherent_frame(self.exited());
    }
}

impl Sched {
    /// Adopts the caller as the main task. A second start changes nothing.
    pub fn boot(&mut self, boot: BootContext, trap: bool)
        requires
            old(self).wf(),
            old(self)@.coherent(),
            !old(self)@.started ==> old(self)@.untouched(),
            trap ==> boot.idle_top >= TASK_CONTEXT_BYTES,
        ensures
            final(self).wf(),
            final(self)@.coherent(),
            final(self)@ == old(self)@.booted(boot, trap),
    {
        let ghost m0 = self@;
        proof {
            m0.lemma_booted(boot, trap);
        }
        if self.started {
            return;
        }
        proof {
            assert(m0.tasks[0] == self.tasks@[0].unlinked());
            assert(m0.tasks[1] == self.tasks@[1].unlinked());
        }
        let mut main = self.tasks[0];
        main.state = State::Running;
        main.identity_generation = 1;
        main.run_policy = RunPolicy::Cooperative;
        main.budget = BudgetState::for_policy(RunPolicy::Cooperative, boot.now);
        main.budget.on_dispatch(boot.now);
        main.metrics.on_dispatch(boot.now);
        self.set_task(0, main);
        self.slot_generations[0] = 1;
        self.current = 0;
        if self.policy.is_none() {
            assert(self.tasks@[1].unlinked() == m0.tasks[1]);
            let mut idle = self.tasks[IDLE_SLOT];
            idle.ctx =
            TaskContext::fresh(
                INITIAL_MSTATUS,
                boot.trampoline,
                boot.tp,
                word_of(boot.idle_top),
                boot.fcsr,
            );
            if trap {
                idle.saved_frame = boot.idle_top - TASK_CONTEXT_BYTES;
            }
            idle.state = State::Ready;
            idle.stack = 0;
            idle.entry = Some(boot.idle_entry);
            idle.arg = 0;
            idle.base_priority = 31;
            idle.priority = 31;
            idle.identity_generation = 1;
            idle.run_policy = RunPolicy::Cooperative;
            idle.budget = BudgetState::for_policy(RunPolicy::Cooperative, boot.now);
            idle.metrics.on_ready(boot.now);
            self.set_task(IDLE_SLOT, idle);
            self.slot_generations[IDLE_SLOT] = 1;
        }
        self.started = true;
        assert(self@ =~= m0.booted(boot, trap));
    }

    /// Creates a task in a free slot, on a stack that nobody else uses.
    pub fn spawn_in_slot(
        &mut self,
        slot: usize,
        request: SpawnRequest,
        stack: usize,
        size: usize,
        now: u64,
        trap: bool,
    )
        requires
            old(self).wf(),
            old(self)@.coherent(),
            slot < TASK_SLOT_COUNT,
            old(self)@.task(slot).state == State::Free,
            request.priority < 32,
            stack + size <= usize::MAX,
            trap ==> top_of(stack, size) >= TASK_CONTEXT_BYTES,
        ensures
            final(self).wf(),
            final(self)@.coherent(),
            final(self)@ == old(self)@.spawned(slot, request, stack, size, now, trap),
    {
        let ghost m0 = self@;
        proof {
            m0.lemma_spawned(slot, request, stack, size, now, trap);
            assert(m0.tasks[slot as int] == self.tasks@[slot as int].unlinked());
        }
        let generation: u16 = following_generation(self.slot_generations[slot]);
        let top: usize = stack_top(stack, size);
        let mut block = self.tasks[slot];
        block.ctx =
        TaskContext::fresh(
            INITIAL_MSTATUS,
            request.trampoline,
            request.tp,
            word_of(top),
            request.fcsr,
        );
        if trap {
            block.saved_frame = top - TASK_CONTEXT_BYTES;
        }
        block.stack = stack;
        block.stack_size = size;
        block.entry = Some(request.entry);
        block.arg = request.arg;
        block.wake_at = 0;
        block.base_priority = request.priority;
        block.priority = request.priority;
        block.identity_generation = generation;
        block.run_policy = request.run_policy;
        block.budget = BudgetState::for_policy(request.run_policy, now);
        self.set_task(slot, block);
        self.slot_generations[slot] = generation;
        assert(self@.slot_generations =~= m0.slot_generations.update(
            slot as int,
            reservation::next_generation(m0.slot_generations[slot as int]),
        ));
        self.make_ready(slot, now);
    }

    /// Gives way to another ready task, if there is one.
    pub fn yield_current(&mut self, now: u64) -> (r: Result<Option<(usize, usize)>, DriverError>)
        requires
            old(self).wf(),
            old(self)@.coherent(),
            old(self)@.task(old(self)@.current).state == State::Running,
        ensures
            final(self).wf(),
            final(self)@.coherent(),
            if old(self)@.task(old(self)@.current).scheduler_lock_depth != 0 {
                &&& r == Err::<Option<(usize, usize)>, _>(DriverError::InvalidContext)
                &&& final(self)@ == old(self)@
            } else {
                &&& final(self)@ == old(self)@.yield_step(now).0
                &&& r == Ok::<_, DriverError>(
                    match old(self)@.yield_step(now).1 {
                        Some(next) => Some((old(self)@.current, next)),
                        None => None,
                    },
                )
                &&& r is Ok && r->Ok_0 is Some ==> (r->Ok_0->0).1 < TASK_SLOT_COUNT
            },
    {
        let ghost m0 = self@;
        let current: usize = match self.current_switch_guard() {
            Ok(current) => current,
            Err(error) => {
                return Err(error);
            },
        };
        self.diagnostics.yields = bump(self.diagnostics.yields);
        let ghost m1 = self@;
        proof {
            m0.lemma_coherent_frame(m1);
            m1.lemma_all_woken_stirred(now);
            m1.lemma_stirred_runner(m1.all_woken(now));
            assert(m1.task(current).state == State::Running);
        }
        self.wake_sleepers(now);
        assert(m1 =~= m0.with_diagnostics(
            Diagnostics { yields: metrics::bumped(m0.diagnostics.yields), ..m0.diagnostics },
        ));
        match self.take_yield_target(current, now) {
            Some(next) => Ok(Some((current, next))),
            None => Ok(None),
        }
    }

    /// Puts the current task to sleep until `wake_at` and returns its slot.
    pub fn sleep_current(&mut self, wake_at: u64) -> (r: Result<usize, DriverError>)
        requires
            old(self).wf(),
            old(self)@.coherent(),
            old(self)@.task(old(self)@.current).state == State::Running,
        ensures
            final(self).wf(),
            final(self)@.coherent(),
            if old(self)@.task(old(self)@.current).scheduler_lock_depth != 0 {
                &&& r == Err::<usize, _>(DriverError::InvalidContext)
                &&& final(self)@ == old(self)@
            } else {
                &&& r == Ok::<_, DriverError>(old(self)@.current)
                &&& final(self)@ == old(self)@.slept(wake_at)
            },
    {
        let ghost m0 = self@;
        let current: usize = match self.current_switch_guard() {
            Ok(current) => current,
            Err(error) => {
                return Err(error);
            },
        };
        self.diagnostics.sleeps = bump(self.diagnostics.sleeps);
        let ghost m1 = self@;
        let mut block = self.tasks[current];
        block.state = State::Sleeping;
        block.wake_at = wake_at;
        proof {
            m0.lemma_coherent_frame(m1);
            assert(m1.tasks[current as int] == self.tasks@[current as int].unlinked());
            assert(m1.tasks[current as int].base_priority < 32);
            m1.lemma_unqueued_when_idle_state(current);
            m1.lemma_tweak_coherent(current, block.unlinked());
        }
        self.set_task(current, block);
        assert(self@ =~= m0.slept(wake_at));
        Ok(current)
    }

    /// Ends the current task and returns its slot. Its stack is kept until another
    /// task runs. A task that others wait for leaves them waiting for a mutex without a
    /// live owner; the scheduler is not coherent then.
    pub fn exit_current(&mut self) -> (r: usize)
        requires
            old(self).wf(),
            old(self)@.coherent(),
            old(self)@.task(old(self)@.current).state == State::Running,
            old(self)@.task(old(self)@.current).scheduler_lock_depth == 0,
            !old(self)@.is_idle(old(self)@.current),
            old(self)@.retired.len() < TASK_SLOT_COUNT,
        ensures
            final(self).wf(),
            old(self)@.owes_nobody(old(self)@.current) ==> final(self)@.coherent(),
            r == old(self)@.current,
            final(self)@ == old(self)@.exited(),
    {
        let ghost m0 = self@;
        let current: usize = self.current;
        proof {
            if m0.owes_nobody(current) {
                m0.lemma_exited();
            }
            assert(m0.tasks[current as int] == self.tasks@[current as int].unlinked());
        }
        let stack: usize = self.tasks[current].stack;
        let mut block = Tcb::empty();
        block.next = self.tasks[current].next;
        self.set_task(current, block);
        self.retire_stack(stack);
        assert(self@ =~= m0.exited());
        current
    }

    /// Hands out the stacks of tasks that have ended. The caller runs on another stack
    /// by now and releases them.
    pub fn reclaim_retired_stacks(&mut self) -> (r: Vec<usize>)
        requires
            old(self).wf(),
            old(self)@.coherent(),
        ensures
            final(self).wf(),
            final(self)@.coherent(),
            r@ == old(self)@.retired,
            final(self)@ == (SchedModel { retired: Seq::empty(), ..old(self)@ }),
    {
        let ghost m0 = self@;
        let mut stacks: Vec<usize> = Vec::new();
        let count: usize = self.retired_count;
        let mut index: usize = 0;
        while index < count
            invariant
                index <= count == self.retired_count <= TASK_SLOT_COUNT,
                self@ == m0,
                self.wf(),
                stacks@ == self.retired_stacks@.take(index as int),
            decreases count - index,
        {
            stacks.push(self.retired_stacks[index]);
            assert(stacks@ =~= self.retired_stacks@.take(index + 1));
            index = index + 1;
        }
        self.retired_stacks = [0;17];
        self.retired_count = 0;
        proof {
            assert(self@.retired =~= Seq::<usize>::empty());
            assert(self@ =~= (SchedModel { retired: Seq::empty(), ..m0 }));
            m0.lemma_coherent_frame(self@);
        }
        stacks
    }
}

} // verus!
