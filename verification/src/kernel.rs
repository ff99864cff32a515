//! The runtime state: scheduler, handles, interrupt depth and timer ticket.
//!
//! The kernel decides and the target carries out: operations that end in a context
//! switch or in programming a timer return what is to be done.
use vstd::prelude::*;
use crate::alarm;
use crate::alarm::EmbassyTimers;
use crate::config::{
    Config, ContractViolation, CooperativeConfig, CooperativeOnly, Diagnostics, Ported,
    PortedConfig, Resources, RuntimeHandle, SchedulerPort, StartError, TaskDiagnostic,
    DYNAMIC_TASK_CAPACITY, NIL, TASK_SLOT_COUNT,
};
use crate::context::TASK_CONTEXT_BYTES;
use crate::error::DriverError;
use crate::lifecycle::BootContext;
use crate::metrics;
use crate::metrics::bump;
use crate::model::{SchedModel, SwitchIntent};
use crate::nonzero::{NonZeroU32, NonZeroUsize};
use crate::resource::ResourceTable;
use crate::scheduler::Sched;
use crate::scheduling::RunPolicy;
use crate::task::{State, Tcb};
use crate::timing;
use crate::timing::earliest_deadline;

verus! {

/// Configuration common to every way of starting.
#[derive(Clone, Copy, Debug, Eq, PartialEq, Structural)]
pub struct StartConfig {
    pub minimum_stack_size: NonZeroUsize,
    pub radio_task_policy: RunPolicy,
    pub max_scheduler_lock_duration: Option<NonZeroU32>,
}

/// What a successful start installs.
#[derive(Clone, Copy, Debug, Eq, PartialEq, Structural)]
pub struct StartState {
    pub config: StartConfig,
    pub resources: Resources,
    pub port: Option<SchedulerPort>,
}

/// The runtime state.
pub struct Kernel {
    pub sched: Sched,
    pub handles: ResourceTable<32>,
    pub interrupt_depth: u16,
    pub timer_generation: u64,
    pub start: Option<StartState>,
}

/// How the shared timer is to be programmed.
#[derive(Clone, Copy, Debug, Eq, PartialEq, Structural)]
pub enum TimerAction {
    /// Fire once after this delay.
    Arm(NonZeroU32),
    /// There is nothing to wait for.
    Disarm,
}

/// A timer program and the ticket under which it was made.
#[derive(Clone, Copy, Debug, Eq, PartialEq, Structural)]
pub struct TimerPlan {
    pub generation: u64,
    pub action: TimerAction,
}

/// What becomes of a switch request.
#[derive(Clone, Copy, Debug, Eq, PartialEq, Structural)]
pub enum SwitchAction {
    /// The calling task runs on.
    Resumed,
    /// A reschedule interrupt must be raised; the source has resumed once its
    /// activation differs from `activation`.
    Trap { source: usize, activation: u32 },
    /// The contexts of the two tasks must be exchanged.
    Direct { source: usize, target: usize },
}

/// What follows when the calling task can no longer run.
#[derive(Clone, Copy, Debug, Eq, PartialEq, Structural)]
pub enum NextTask {
    /// An interrupt has already brought the task back.
    Resumed,
    /// Another task is to run.
    Switch(SwitchIntent),
    /// No task can run yet.
    Wait,
}

/// Whether a thread-mode switch can be delivered: without a port at any time, with one
/// only inside an interrupt or while interrupts are enabled.
pub fn switch_delivery_is_valid(
    ported: bool,
    in_interrupt: bool,
    machine_interrupts_enabled: bool,
) -> (r: bool)
    ensures
        r == (ported ==> in_interrupt || machine_interrupts_enabled),
{
    !ported || in_interrupt || machine_interrupts_enabled
}

/// Takes the next timer ticket.
pub fn claim_timer_rearm_generation(generation: &mut u64) -> (r: u64)
    ensures
        *final(generation) == old(generation).wrapping_add(1),
        r == *final(generation),
{
    *generation = generation.wrapping_add(1);
    *generation
}

/// A ticket is out of date as soon as another one has been taken.
pub proof fn law_claimed_ticket_outdates_the_former(generation: u64)
    ensures
        generation.wrapping_add(1) != generation,
{
}

/// The delay until `deadline`: at least one millisecond, at most what the timer takes.
pub open spec fn delay_until(deadline: u64, now: u64, limit: u32) -> u32 {
    let left = if deadline <= now {
        1
    } else {
        deadline - now
    };
    if left > limit {
        limit
    } else {
        left as u32
    }
}

/// `action` programs the timer for `deadline`.
pub open spec fn programs(
    action: TimerAction,
    deadline: Option<u64>,
    now: u64,
    limit: u32,
) -> bool {
    match deadline {
        Some(at) => action matches TimerAction::Arm(delay) && delay@ == delay_until(at, now, limit),
        None => action == TimerAction::Disarm,
    }
}

/// The timer fires no later than the deadline, except that a deadline that has passed
/// takes the shortest delay.
pub proof fn law_delay_never_misses_a_deadline(deadline: u64, now: u64, limit: u32)
    requires
        limit > 0,
    ensures
        0 < delay_until(deadline, now, limit) <= limit,
        deadline > now ==> now + delay_until(deadline, now, limit) <= deadline,
        deadline <= now ==> delay_until(deadline, now, limit) == 1,
{
}

/// Programs the timer for `deadline`.
pub fn timer_action(deadline: Option<u64>, now: u64, limit: NonZeroU32) -> (r: TimerAction)
    ensures
        programs(r, deadline, now, limit@),
{
    let deadline: u64 = match deadline {
        Some(at) => at,
        None => {
            return TimerAction::Disarm;
        },
    };
    let left: u64 = if deadline <= now {
        1
    } else {
        deadline - now
    };
    let delay: u32 = if left > limit.get() as u64 {
        limit.get()
    } else {
        left as u32
    };
    match NonZeroU32::new(delay) {
        Some(delay) => TimerAction::Arm(delay),
        None => TimerAction::Disarm,
    }
}

impl SchedModel {
    /// A timer interrupt at `now`: it is counted, deadlines are served, and a time
    /// slice that is over is noted.
    pub open spec fn timer_interrupted(self, now: u64, limit: u32) -> (
        SchedModel,
        Option<ContractViolation>,
    ) {
        let (m, violation) = self.with_diagnostics(
            Diagnostics {
                timer_interrupts: metrics::bumped(self.diagnostics.timer_interrupts),
                ..self.diagnostics
            },
        ).timer_fired(now, limit);
        (
            if m.time_slice_deadline != 0 && now >= m.time_slice_deadline {
                SchedModel { time_slice_pending: true, time_slice_deadline: 0, ..m }
            } else {
                m
            },
            violation,
        )
    }

    /// What becomes of a switch request.
    pub open spec fn executed(self, intent: SwitchIntent, now: u64, ported: bool) -> (
        SchedModel,
        SwitchAction,
    ) {
        if intent.source == intent.target {
            (self.switched(intent.source, intent.target, now), SwitchAction::Resumed)
        } else if ported {
            let (m, committed) = self.intent_committed(intent);
            (
                m,
                if committed {
                    SwitchAction::Trap {
                        source: intent.source,
                        activation: self.task(intent.source).resume_generation,
                    }
                } else {
                    SwitchAction::Resumed
                },
            )
        } else {
            (
                self.switched(intent.source, intent.target, now),
                SwitchAction::Direct { source: intent.source, target: intent.target },
            )
        }
    }

    /// What follows when `previous` can no longer run: it may be back already; otherwise
    /// due tasks wake and the best one is chosen.
    pub open spec fn switched_away(self, previous: usize, now: u64, ported: bool) -> (
        SchedModel,
        NextTask,
    ) {
        if ported && self.current == previous && self.task(previous).state == State::Running {
            (self, NextTask::Resumed)
        } else {
            let woken = self.all_woken(now);
            let next = woken.pop_or_idle_slot();
            let m = woken.popped();
            if next == NIL {
                (m, NextTask::Wait)
            } else {
                (m.intent_counted(), NextTask::Switch(m.intent(previous, next)))
            }
        }
    }

    /// The deadlines that share the timer.
    pub open spec fn deadlines(self, now: u64, limit: u32, embassy: Option<u64>) -> Seq<
        Option<u64>,
    > {
        seq![
            timing::earliest(self.wake_deadlines()),
            self.time_sliced(now).1,
            timing::earlier(
                self.time_sliced(now).0.exhaustion(),
                timing::earliest(self.time_sliced(now).0.replenish_deadlines()),
            ),
            self.time_sliced(now).0.lock_deadline(limit),
            embassy,
        ]
    }
}

impl Kernel {
    /// Every part is consistent, and a port comes with a bound on the scheduler lock.
    pub open spec fn wf(self) -> bool {
        &&& self.sched.wf()
        &&& self.sched.reservations.wf()
        &&& self.handles.wf()
        &&& self.start matches Some(state) ==> {
            &&& state.resources.dynamic_capacity <= DYNAMIC_TASK_CAPACITY
            &&& state.port is Some ==> state.config.max_scheduler_lock_duration is Some
        }
    }

    pub open spec fn ported(self) -> bool {
        self.start is Some && self.start->0.port is Some
    }

    /// A thread-mode switch can be delivered.
    pub open spec fn delivers(self, machine_interrupts_enabled: bool) -> bool {
        self.ported() ==> self.interrupt_depth != 0 || machine_interrupts_enabled
    }

    /// Everything but the scheduler is as in `other`.
    pub open spec fn same_shell(self, other: Kernel) -> bool {
        &&& self.handles == other.handles
        &&& self.interrupt_depth == other.interrupt_depth
        &&& self.timer_generation == other.timer_generation
        &&& self.start == other.start
    }

    /// The calling task is the running one.
    pub open spec fn in_thread(self) -> bool {
        self.sched@.task(self.sched@.current).state == State::Running
    }

    /// A runtime that has not been started.
    pub fn new() -> (r: Self)
        ensures
            r.wf(),
            r.sched@ == SchedModel::initial(None, None),
            r.sched@.coherent(),
            forall|i: int| 0 <= i < 32 ==> (#[trigger] r.handles.slots@[i]).pointer == 0,
            r.interrupt_depth == 0,
            r.timer_generation == 0,
            r.start is None,
    {
        proof {
            SchedModel::law_initial_is_coherent(None, None);
        }
        Kernel {
            sched: Sched::new(),
            handles: ResourceTable::new(),
            interrupt_depth: 0,
            timer_generation: 0,
            start: None,
        }
    }

    /// What a start with `state` does, given what installing the runtime gave.
    pub open spec fn starts<I: FnOnce() -> Result<(), DriverError>>(
        self,
        after: Kernel,
        state: StartState,
        fresh: SchedModel,
        boot: BootContext,
        install: I,
        result: Result<(), StartError>,
    ) -> bool {
        match self.start {
            Some(_) => {
                &&& result == Err::<(), _>(StartError::AlreadyStarted)
                &&& after.same_shell(self)
                &&& after.sched@ == self.sched@
            },
            None => match result {
                Ok(_) => {
                    &&& exists|done: ()| #[trigger] call_ensures(install, (), Ok(done))
                    &&& after.start == Some(state)
                    &&& after.sched@ == fresh.booted(boot, state.port is Some)
                    &&& after.handles == self.handles
                    &&& after.interrupt_depth == self.interrupt_depth
                    &&& after.timer_generation == self.timer_generation
                },
                Err(error) => {
                    &&& error matches StartError::Driver(cause)
                    &&& call_ensures(install, (), Err(cause))
                    &&& after.same_shell(self)
                    &&& after.sched@ == self.sched@
                },
            },
        }
    }

    /// A start that the driver contract refuses reports its error and leaves the runtime
    /// not started: everything is as before, and a later start is not refused as a second
    /// one.
    pub proof fn law_refused_start_leaves_nothing<
        I: FnOnce() -> Result<(), DriverError>,
        J: FnOnce() -> Result<(), DriverError>,
    >(
        self,
        after: Kernel,
        state: StartState,
        fresh: SchedModel,
        boot: BootContext,
        install: I,
        result: Result<(), StartError>,
        error: DriverError,
        last: Kernel,
        retry: J,
        again: Result<(), StartError>,
    )
        requires
            self.start is None,
            forall|outcome: Result<(), DriverError>|
                call_ensures(install, (), outcome) ==> outcome == Err::<(), _>(error),
            self.starts(after, state, fresh, boot, install, result),
            after.starts(last, state, fresh, boot, retry, again),
        ensures
            result == Err::<(), _>(StartError::Driver(error)),
            after.start is None,
            after.same_shell(self),
            after.sched@ == self.sched@,
            again != Err::<(), _>(StartError::AlreadyStarted),
    {
    }

    /// A start is possible: the scheduler is unused and the machine is described.
    pub open spec fn can_start<I: FnOnce() -> Result<(), DriverError>>(
        self,
        resources: Resources,
        ported: bool,
        boot: BootContext,
        install: I,
    ) -> bool {
        &&& self.wf()
        &&& self.sched@.coherent()
        &&& self.start is None ==> {
            &&& call_requires(install, ())
            &&& resources.dynamic_capacity <= DYNAMIC_TASK_CAPACITY
            &&& !self.sched@.started ==> self.sched@.untouched()
            &&& ported ==> boot.idle_top >= TASK_CONTEXT_BYTES
        }
    }

    fn start_inner<I: FnOnce() -> Result<(), DriverError>>(
        &mut self,
        state: StartState,
        boot: BootContext,
        install: I,
    ) -> (r: Result<(), StartError>)
        requires
            old(self).can_start(state.resources, state.port is Some, boot, install),
            state.port is Some ==> state.config.max_scheduler_lock_duration is Some,
        ensures
            final(self).wf(),
            final(self).sched@.coherent(),
            old(self).starts(*final(self), state, old(self).sched@, boot, install, r),
    {
        if self.start.is_some() {
            return Err(StartError::AlreadyStarted);
        }
        self.start = Some(state);
        let outcome = install();
        match outcome {
            Ok(done) => {
                assert(call_ensures(install, (), outcome));
                assert(outcome == Ok::<(), DriverError>(done));
            },
            Err(error) => {
                self.start = None;
                return Err(StartError::Driver(error));
            },
        }
        self.sched.boot(boot, state.port.is_some());
        Ok(())
    }

    /// Whether a thread-mode switch can be delivered now.
    pub fn can_deliver(&self, machine_interrupts_enabled: bool) -> (r: bool)
        requires
            self.start is Some,
        ensures
            r == self.delivers(machine_interrupts_enabled),
    {
        switch_delivery_is_valid(
            self.is_ported(),
            self.interrupt_depth != 0,
            machine_interrupts_enabled,
        )
    }

    /// Whether a target port is installed.
    pub fn is_ported(&self) -> (r: bool)
        ensures
            r == self.ported(),
    {
        match self.start {
            Some(state) => state.port.is_some(),
            None => false,
        }
    }

    /// Refuses a thread-mode switch that could not be delivered.
    pub fn ensure_switch_delivery(&self, machine_interrupts_enabled: bool) -> (r: Result<
        (),
        DriverError,
    >)
        requires
            self.start is Some,
        ensures
            r == (if self.delivers(machine_interrupts_enabled) {
                Ok::<(), DriverError>(())
            } else {
                Err(DriverError::InvalidContext)
            }),
    {
        if self.can_deliver(machine_interrupts_enabled) {
            Ok(())
        } else {
            Err(DriverError::InvalidContext)
        }
    }

    // ---- Timer -------------------------------------------------------------
    /// Works out how the shared timer is to be programmed, under a new ticket. Without
    /// a port there is no timer. The result must be programmed, and worked out again if
    /// its ticket is out of date by then.
    pub fn rearm_timer(&mut self, timers: &mut EmbassyTimers, now: u64) -> (r: Option<TimerPlan>)
        requires
            old(self).wf(),
            old(self).sched@.coherent(),
        ensures
            final(self).wf(),
            final(self).sched@.coherent(),
            final(self).handles == old(self).handles,
            final(self).interrupt_depth == old(self).interrupt_depth,
            final(self).start == old(self).start,
            if old(self).ported() {
                let state = old(self).start->0;
                let limit = state.config.max_scheduler_lock_duration->0@;
                &&& final(self).sched@ == old(self).sched@.time_sliced(now).0
                &&& final(self).timer_generation == old(self).timer_generation.wrapping_add(1)
                &&& alarm::expirations(final(timers).queue) == alarm::unexpired(
                    alarm::expirations(old(timers).queue),
                    alarm::ticks(now),
                )
                &&& r matches Some(plan)
                &&& plan.generation == final(self).timer_generation
                &&& exists|at: u64| #[trigger]
                    alarm::is_next(alarm::expirations(final(timers).queue), at) && programs(
                        plan.action,
                        timing::earliest(
                            old(self).sched@.deadlines(now, limit, alarm::alarm_ms(now, at)),
                        ),
                        now,
                        state.port->0.max_timer_delay@,
                    )
            } else {
                &&& r is None
                &&& final(self).same_shell(*old(self))
                &&& final(self).sched@ == old(self).sched@
                &&& *final(timers) == *old(timers)
            },
    {
        let state = match self.start {
            Some(state) => state,
            None => {
                return None;
            },
        };
        let port = match state.port {
            Some(port) => port,
            None => {
                return None;
            },
        };
        let lock_limit = match state.config.max_scheduler_lock_duration {
            Some(limit) => limit,
            None => {
                return None;
            },
        };
        let ghost m0 = self.sched@;
        let wake = self.sched.earliest_wake_deadline();
        let slice = self.sched.next_time_slice_deadline(now);
        proof {
            m0.lemma_coherent_frame(self.sched@);
        }
        let budget = self.sched.earliest_budget_deadline();
        let lock = self.sched.scheduler_lock_deadline(lock_limit);
        let embassy = timers.next_expiration_ms(now);
        let ghost at = choose|at: u64| #[trigger]
            alarm::is_next(alarm::expirations(timers.queue), at) && embassy == alarm::alarm_ms(
                now,
                at,
            );
        let deadline = earliest_deadline(wake, slice, budget, lock, embassy);
        assert(seq![wake, slice, budget, lock, embassy] =~= m0.deadlines(
            now,
            lock_limit@,
            alarm::alarm_ms(now, at),
        ));
        let generation: u64 = claim_timer_rearm_generation(&mut self.timer_generation);
        let action = timer_action(deadline, now, port.max_timer_delay);
        assert(alarm::is_next(alarm::expirations(timers.queue), at));
        Some(TimerPlan { generation, action })
    }

    /// Whether no other timer program has been made since `plan`.
    pub fn timer_plan_is_current(&self, plan: TimerPlan) -> (r: bool)
        ensures
            r == (self.timer_generation == plan.generation),
    {
        self.timer_generation == plan.generation
    }

    // ---- Switching ---------------------------------------------------------
    /// Carries out a switch request as far as the kernel can.
    pub fn execute_switch(&mut self, intent: SwitchIntent, now: u64) -> (r: SwitchAction)
        requires
            old(self).wf(),
            old(self).sched@.coherent(),
            intent.source < TASK_SLOT_COUNT,
            intent.target < TASK_SLOT_COUNT,
            old(self).ported() && intent.source != intent.target
                && !old(self).sched@.intent_foreign(intent) && !old(self).sched@.intent_stale(
                intent,
            ) ==> {
                &&& old(self).sched@.pending_switch is None
                &&& old(self).sched@.task(intent.target).saved_frame != 0
            },
        ensures
            final(self).wf(),
            final(self).same_shell(*old(self)),
            (final(self).sched@, r) == old(self).sched@.executed(intent, now, old(self).ported()),
            old(self).sched@.dispatchable(intent.target) || (old(self).ported() && intent.source
                != intent.target) ==> final(self).sched@.coherent(),
    {
        let ghost m0 = self.sched@;
        proof {
            assert(m0.tasks[intent.source as int]
                == self.sched.tasks@[intent.source as int].unlinked());
            if m0.dispatchable(intent.target) {
                m0.lemma_switched(intent.source, intent.target, now);
            }
        }
        if intent.source == intent.target {
            self.sched.complete_switch(intent.source, intent.target, now);
            return SwitchAction::Resumed;
        }
        if self.is_ported() {
            let activation: u32 = self.sched.tasks[intent.source].resume_generation;
            if self.sched.commit_switch_intent(intent) {
                SwitchAction::Trap { source: intent.source, activation }
            } else {
                SwitchAction::Resumed
            }
        } else {
            self.sched.complete_switch(intent.source, intent.target, now);
            SwitchAction::Direct { source: intent.source, target: intent.target }
        }
    }

    /// Whether a task that raised a trap switch runs again.
    pub fn switch_resumed(&self, source: usize, activation: u32) -> (r: bool)
        requires
            self.wf(),
            source < TASK_SLOT_COUNT,
        ensures
            r == (self.sched@.current == source && self.sched@.task(source).resume_generation
                != activation),
    {
        assert(self.sched@.tasks[source as int] == self.sched.tasks@[source as int].unlinked());
        self.sched.current == source && self.sched.tasks[source].resume_generation != activation
    }

    /// Chooses what runs instead of `previous`, which has just given up running.
    pub fn switch_away(&mut self, previous: usize, now: u64) -> (r: NextTask)
        requires
            old(self).wf(),
            old(self).sched@.coherent(),
            previous < TASK_SLOT_COUNT,
        ensures
            final(self).wf(),
            final(self).sched@.coherent(),
            final(self).same_shell(*old(self)),
            (final(self).sched@, r) == old(self).sched@.switched_away(
                previous,
                now,
                old(self).ported(),
            ),
    {
        let ghost m0 = self.sched@;
        assert(m0.tasks[previous as int] == self.sched.tasks@[previous as int].unlinked());
        if self.is_ported() && self.sched.current == previous && self.sched.tasks[previous].state
            == State::Running {
            return NextTask::Resumed;
        }
        proof {
            m0.lemma_all_woken_stirred(now);
        }
        self.sched.wake_sleepers(now);
        let ghost woken = self.sched@;
        let next: usize = self.sched.ready_pop_or_idle();
        proof {
            woken.lemma_popped_coherent();
        }
        if next == NIL {
            return NextTask::Wait;
        }
        NextTask::Switch(self.sched.prepare_switch_intent(previous, next))
    }

    /// The scheduling point at the end of a trap, on the interrupt stack: returns the
    /// frame to resume from.
    pub fn irq_epilogue(&mut self, frame: usize, now: u64) -> (r: usize)
        requires
            old(self).wf(),
            old(self).sched@.coherent(),
            old(self).sched@.trap_target_saved(frame, old(self).interrupt_depth, now),
        ensures
            final(self).wf(),
            final(self).same_shell(*old(self)),
            (final(self).sched@, r) == old(self).sched@.trapped(
                frame,
                old(self).interrupt_depth,
                now,
            ),
            old(self).sched@.trap_target_dispatchable(now) ==> final(self).sched@.coherent(),
    {
        proof {
            if self.sched@.trap_target_dispatchable(now) {
                self.sched@.lemma_trapped(frame, self.interrupt_depth, now);
            }
        }
        self.sched.schedule_from_trap(frame, self.interrupt_depth, now)
    }
}

// ---- Starting ---------------------------------------------------------------
/// Starts a scheduler under one firmware-wide policy, without a port. `install` makes
/// the runtime known to the radio drivers.
pub fn start<I: FnOnce() -> Result<(), DriverError>>(
    kernel: &mut Kernel,
    config: Config,
    resources: Resources,
    boot: BootContext,
    install: I,
) -> (r: Result<(), StartError>)
    requires
        old(kernel).can_start(resources, false, boot, install),
    ensures
        final(kernel).wf(),
        final(kernel).sched@.coherent(),
        old(kernel).starts(
            *final(kernel),
            StartState {
                config: StartConfig {
                    minimum_stack_size: config.minimum_stack_size,
                    radio_task_policy: RunPolicy::Cooperative,
                    max_scheduler_lock_duration: None,
                },
                resources,
                port: None,
            },
            SchedModel::initial(Some(config.scheduling), config.time_slice),
            boot,
            install,
            r,
        ),
{
    if kernel.start.is_some() {
        return Err(StartError::AlreadyStarted);
    }
    let state = StartState {
        config: StartConfig {
            minimum_stack_size: config.minimum_stack_size,
            radio_task_policy: RunPolicy::Cooperative,
            max_scheduler_lock_duration: None,
        },
        resources,
        port: None,
    };
    let outcome = install();
    match outcome {
        Ok(done) => {
            assert(call_ensures(install, (), outcome));
            assert(outcome == Ok::<(), DriverError>(done));
        },
        Err(error) => {
            return Err(StartError::Driver(error));
        },
    }
    proof {
        SchedModel::law_initial_is_coherent(Some(config.scheduling), config.time_slice);
    }
    kernel.start = Some(state);
    kernel.sched = Sched::with_policy(config.scheduling, config.time_slice);
    kernel.sched.boot(boot, false);
    Ok(())
}

/// Starts the port-less cooperative-only scheduler profile.
///
/// This profile switches only when a task yields, blocks, sleeps or exits. Interrupts
/// make tasks ready without switching to them, and deadlines are observed at the next
/// scheduling point.
pub fn start_cooperative<I: FnOnce() -> Result<(), DriverError>>(
    kernel: &mut Kernel,
    config: CooperativeConfig,
    resources: Resources,
    boot: BootContext,
    install: I,
) -> (r: Result<RuntimeHandle<CooperativeOnly>, StartError>)
    requires
        old(kernel).can_start(resources, false, boot, install),
    ensures
        final(kernel).wf(),
        final(kernel).sched@.coherent(),
        old(kernel).starts(
            *final(kernel),
            StartState {
                config: StartConfig {
                    minimum_stack_size: config.minimum_stack_size,
                    radio_task_policy: RunPolicy::Cooperative,
                    max_scheduler_lock_duration: None,
                },
                resources,
                port: None,
            },
            old(kernel).sched@,
            boot,
            install,
            match r {
                Ok(_) => Ok(()),
                Err(error) => Err(error),
            },
        ),
{
    let state = StartState {
        config: StartConfig {
            minimum_stack_size: config.minimum_stack_size,
            radio_task_policy: RunPolicy::Cooperative,
            max_scheduler_lock_duration: None,
        },
        resources,
        port: None,
    };
    match kernel.start_inner(state, boot, install) {
        Ok(_) => Ok(RuntimeHandle::new()),
        Err(error) => Err(error),
    }
}

/// Starts the scheduler with a target timer and a deferred-reschedule port.
pub fn start_with_port<I: FnOnce() -> Result<(), DriverError>>(
    kernel: &mut Kernel,
    config: PortedConfig,
    resources: Resources,
    port: SchedulerPort,
    boot: BootContext,
    install: I,
) -> (r: Result<RuntimeHandle<Ported>, StartError>)
    requires
        old(kernel).can_start(resources, true, boot, install),
    ensures
        final(kernel).wf(),
        final(kernel).sched@.coherent(),
        old(kernel).starts(
            *final(kernel),
            StartState {
                config: StartConfig {
                    minimum_stack_size: config.minimum_stack_size,
                    radio_task_policy: config.radio_task_policy,
                    max_scheduler_lock_duration: Some(config.max_scheduler_lock_duration),
                },
                resources,
                port: Some(port),
            },
            old(kernel).sched@,
            boot,
            install,
            match r {
                Ok(_) => Ok(()),
                Err(error) => Err(error),
            },
        ),
{
    let state = StartState {
        config: StartConfig {
            minimum_stack_size: config.minimum_stack_size,
            radio_task_policy: config.radio_task_policy,
            max_scheduler_lock_duration: Some(config.max_scheduler_lock_duration),
        },
        resources,
        port: Some(port),
    };
    match kernel.start_inner(state, boot, install) {
        Ok(_) => Ok(RuntimeHandle::new()),
        Err(error) => Err(error),
    }
}

// ---- Interrupts ---------------------------------------------------------------
/// Marks entry into an interrupt handler. The outermost entry is charged to the
/// interrupted task.
pub fn interrupt_enter(kernel: &mut Kernel, now: u64)
    requires
        old(kernel).wf(),
        old(kernel).sched@.coherent(),
    ensures
        final(kernel).wf(),
        final(kernel).sched@.coherent(),
        final(kernel).sched@ == (if old(kernel).start is Some && old(kernel).interrupt_depth == 0 {
            old(kernel).sched@.irq_entered(now)
        } else {
            old(kernel).sched@
        }),
        final(kernel).interrupt_depth == (if old(kernel).interrupt_depth == u16::MAX {
            u16::MAX as int
        } else {
            old(kernel).interrupt_depth + 1
        }),
        final(kernel).handles == old(kernel).handles,
        final(kernel).timer_generation == old(kernel).timer_generation,
        final(kernel).start == old(kernel).start,
{
    if kernel.interrupt_depth == 0 && kernel.start.is_some() {
        kernel.sched.interrupt_enter(now);
    }
    kernel.interrupt_depth = kernel.interrupt_depth.saturating_add(1);
}

/// Marks exit from an interrupt handler.
pub fn interrupt_exit(kernel: &mut Kernel, now: u64)
    requires
        old(kernel).wf(),
        old(kernel).sched@.coherent(),
        old(kernel).interrupt_depth != 0,
    ensures
        final(kernel).wf(),
        final(kernel).sched@.coherent(),
        final(kernel).sched@ == (if old(kernel).start is Some && old(kernel).interrupt_depth == 1 {
            old(kernel).sched@.irq_left(now)
        } else {
            old(kernel).sched@
        }),
        final(kernel).interrupt_depth == old(kernel).interrupt_depth - 1,
        final(kernel).handles == old(kernel).handles,
        final(kernel).timer_generation == old(kernel).timer_generation,
        final(kernel).start == old(kernel).start,
{
    if kernel.interrupt_depth == 1 && kernel.start.is_some() {
        kernel.sched.interrupt_exit(now);
    }
    kernel.interrupt_depth = kernel.interrupt_depth - 1;
}

/// Serves an expiry of the scheduler timer. A violation must be reported to the port,
/// which does not return; otherwise the timer must be programmed anew.
pub fn on_timer_interrupt(kernel: &mut Kernel, now: u64) -> (r: Option<ContractViolation>)
    requires
        old(kernel).wf(),
        old(kernel).sched@.coherent(),
        old(kernel).start is Some,
        old(kernel).start->0.config.max_scheduler_lock_duration is Some,
    ensures
        final(kernel).wf(),
        final(kernel).sched@.coherent(),
        final(kernel).same_shell(*old(kernel)),
        (final(kernel).sched@, r) == old(kernel).sched@.timer_interrupted(
            now,
            old(kernel).start->0.config.max_scheduler_lock_duration->0@,
        ),
{
    let limit = match kernel.start {
        Some(state) => match state.config.max_scheduler_lock_duration {
            Some(limit) => limit,
            None => {
                return None;
            },
        },
        None => {
            return None;
        },
    };
    let ghost m0 = kernel.sched@;
    kernel.sched.diagnostics.timer_interrupts = bump(kernel.sched.diagnostics.timer_interrupts);
    proof {
        m0.lemma_coherent_frame(kernel.sched@);
        kernel.sched@.lemma_all_woken_stirred(now);
    }
    let violation = kernel.sched.on_timer(now, limit);
    let ghost m1 = kernel.sched@;
    if kernel.sched.time_slice_deadline != 0 && now >= kernel.sched.time_slice_deadline {
        kernel.sched.time_slice_pending = true;
        kernel.sched.time_slice_deadline = 0;
        proof {
            m1.lemma_coherent_frame(kernel.sched@);
        }
    }
    violation
}

/// Records delivery of the deferred-reschedule interrupt.
pub fn on_software_interrupt(kernel: &mut Kernel)
    requires
        old(kernel).wf(),
        old(kernel).sched@.coherent(),
    ensures
        final(kernel).wf(),
        final(kernel).sched@.coherent(),
        final(kernel).same_shell(*old(kernel)),
        final(kernel).sched@ == old(kernel).sched@.with_diagnostics(
            Diagnostics {
                software_interrupts: metrics::bumped(
                    old(kernel).sched@.diagnostics.software_interrupts,
                ),
                ..old(kernel).sched@.diagnostics
            },
        ),
{
    let ghost m0 = kernel.sched@;
    kernel.sched.diagnostics.software_interrupts =
    bump(kernel.sched.diagnostics.software_interrupts);
    proof {
        m0.lemma_coherent_frame(kernel.sched@);
    }
}

/// Whether an immediate scheduling point is to be requested through the port, after
/// programming the timer anew.
pub fn request_reschedule(kernel: &Kernel) -> (r: bool)
    requires
        kernel.start is Some,
    ensures
        r == kernel.ported(),
{
    kernel.is_ported()
}

/// Snapshots the counters and the census.
pub fn diagnostics(kernel: &Kernel) -> (r: Diagnostics)
    requires
        kernel.wf(),
    ensures
        r == kernel.sched@.snapshot(kernel.capacity() as u8),
{
    kernel.sched.diagnostics_with_capacity(kernel.dynamic_capacity())
}

/// Copies slot details into `output`, as many as both hold, and returns how many.
pub fn task_diagnostics(kernel: &Kernel, output: &mut [TaskDiagnostic], now: u64) -> (r: usize)
    requires
        kernel.wf(),
    ensures
        r == (if old(output)@.len() < TASK_SLOT_COUNT {
            old(output)@.len() as int
        } else {
            TASK_SLOT_COUNT as int
        }),
        final(output)@.len() == old(output)@.len(),
        forall|i: int|
            0 <= i < r ==> #[trigger] final(output)@[i] == kernel.sched@.slot_snapshot(
                i as usize,
                now,
            ),
        forall|i: int|
            r <= i < old(output)@.len() ==> #[trigger] final(output)@[i] == old(output)@[i],
{
    kernel.sched.task_diagnostics(output, now)
}

impl Kernel {
    /// Dynamic task slots of this runtime.
    pub open spec fn capacity(self) -> usize {
        match self.start {
            Some(state) => state.resources.dynamic_capacity,
            None => DYNAMIC_TASK_CAPACITY,
        }
    }

    /// Dynamic task slots of this runtime.
    pub fn dynamic_capacity(&self) -> (r: usize)
        requires
            self.wf(),
        ensures
            r == self.capacity(),
            r <= DYNAMIC_TASK_CAPACITY,
    {
        match self.start {
            Some(state) => state.resources.dynamic_capacity,
            None => DYNAMIC_TASK_CAPACITY,
        }
    }
}

// ---- Coherence of switches ----------------------------------------------------
impl SchedModel {
    /// The switch at the end of a trap has a target that can start running.
    pub open spec fn trap_target_dispatchable(self, now: u64) -> bool {
        let (m, target) = self.trap_choice(now);
        target matches Some((previous, next)) ==> m.dispatchable(next)
    }

    /// Accounting leaves the new task free to run.
    proof fn lemma_accounted_dispatchable(self, previous: usize, next: usize, now: u64)
        requires
            self.coherent(),
            previous < TASK_SLOT_COUNT,
            self.dispatchable(next),
        ensures
            self.accounted(previous, next, now).coherent(),
            self.accounted(previous, next, now).dispatchable(next),
    {
        self.lemma_accounted(previous, next, now);
        let a = self.accounted(previous, next, now);
        assert forall|q: int| 0 <= q < 96 implies !(#[trigger] a.queues[q]).contains(next) by {
            assert(!self.queues[q].contains(next));
        }
    }

    pub(crate) proof fn lemma_switched(self, previous: usize, next: usize, now: u64)
        requires
            self.coherent(),
            previous < TASK_SLOT_COUNT,
            self.dispatchable(next),
        ensures
            self.switched(previous, next, now).coherent(),
    {
        let a = if previous == next {
            self
        } else {
            self.lemma_accounted_dispatchable(previous, next, now);
            self.accounted(previous, next, now)
        };
        let t = Tcb { state: State::Running, ..a.task(next) };
        assert(a.tasks[next as int].base_priority < 32);
        a.lemma_tweak_coherent(next, t);
        a.with_task(next, t).lemma_coherent_frame(self.switched(previous, next, now));
    }

    proof fn lemma_trap_switched(self, previous: usize, next: usize, frame: usize, now: u64)
        requires
            self.coherent(),
            previous < TASK_SLOT_COUNT,
            self.dispatchable(next),
        ensures
            self.trap_switched(previous, next, frame, now).coherent(),
    {
        self.lemma_accounted_dispatchable(previous, next, now);
        let a = self.accounted(previous, next, now);
        assert(a.tasks[previous as int].base_priority < 32);
        let saved = Tcb { saved_frame: frame, ..a.task(previous) };
        a.lemma_kept_tweak(previous, saved);
        a.lemma_tweak_coherent(previous, saved);
        let b = if a.task(previous).state != State::Free {
            a.with_task(previous, saved)
        } else {
            a
        };
        assert(b.loose(next)) by {
            assert forall|q: int| 0 <= q < 96 implies !(#[trigger] b.queues[q]).contains(next) by {
                assert(!a.queues[q].contains(next));
            }
        }
        assert(b.tasks[next as int].base_priority < 32);
        let t = Tcb {
            saved_frame: 0,
            state: State::Running,
            resume_generation: b.task(next).resume_generation.wrapping_add(1),
            ..b.task(next)
        };
        b.lemma_tweak_coherent(next, t);
        b.with_task(next, t).lemma_coherent_frame(
            self.trap_switched(previous, next, frame, now),
        );
    }

    /// A block that differs only in its saved frame may take its place.
    proof fn lemma_kept_tweak(self, slot: usize, task: Tcb)
        requires
            self.coherent(),
            slot < TASK_SLOT_COUNT,
            task == (Tcb { saved_frame: task.saved_frame, ..self.task(slot) }),
        ensures
            self.tweak(slot, task),
    {
        assert(self.tasks[slot as int].base_priority < 32);
        let t = self.task(slot);
        assert(t.waiting_sem != 0 || t.waiting_mutex != 0 ==> t.state == State::Blocked);
        if self.ready_queued(slot) {
            let key = self.ready_key(slot);
            assert(self.tasks[slot as int].priority < 32);
            assert(self.queues[key].contains(slot));
        }
    }

    pub(crate) proof fn lemma_trapped(self, frame: usize, depth: u16, now: u64)
        requires
            self.coherent(),
            self.trap_target_dispatchable(now),
        ensures
            self.trapped(frame, depth, now).0.coherent(),
    {
        let (m, target) = self.trap_choice(now);
        if self.pending_switch is Some {
            self.lemma_coherent_frame(self.pending_consumed());
        } else {
            self.lemma_epilogue_choice(now);
        }
        if self.started && depth == 0 {
            if let Some((previous, next)) = target {
                m.lemma_trap_switched(previous, next, frame, now);
                m.trap_switched(previous, next, frame, now).lemma_coherent_frame(
                    self.trapped(frame, depth, now).0,
                );
            }
        }
    }
}

} // verus!
