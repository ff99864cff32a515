//! The shared scheduling scenarios of the radio driver contract, run against the kernel.
use hisi_rf_rtos_driver::conformance::{
    run_suite, Action, ActionOutcome, ActorId, ActorState, Backend, ExecutionProfile, Observation,
    ResourceHandleRef, ResourceKind as Kind, Wait, SCHEMA_VERSION,
    V1_SCENARIOS,
};
use hisi_rf_rtos_driver::{Error, RuntimeContract, RuntimeExecutionProfile, TaskPriority};
use hisi_rtos::blocks::SuppliedBlocks;
use hisi_rtos::config::{CooperativeConfig, Resources, IDLE_SLOT, NIL};
use hisi_rtos::error::{
    DriverError, MutexHandle, SemaphoreHandle, TaskId, WaitCancellationOutcome, WaitTimeout,
};
use hisi_rtos::identity::encode_task_id;
use hisi_rtos::kernel::{
    interrupt_enter, interrupt_exit, start_cooperative, Kernel, NextTask, SwitchAction,
};
use hisi_rtos::lifecycle::{BootContext, SpawnRequest};
use hisi_rtos::model::SwitchIntent;
use hisi_rtos::nonzero::NonZeroU32;
use hisi_rtos::resource::ResourceKind;
use hisi_rtos::scheduling::RunPolicy;
use hisi_rtos::semaphore::WaitStep;
use hisi_rtos::services::SleepStep;
use hisi_rtos::task::State;

/// Memory that never runs out.
fn memory() -> SuppliedBlocks<impl Fn(usize) -> usize, impl Fn() -> usize> {
    SuppliedBlocks::new(|_| 0x1000, || 0x1000)
}

struct KernelBackend {
    kernel: Kernel,
    profile: ExecutionProfile,
    now: u64,
    identity: Option<TaskId>,
    semaphore: Option<SemaphoreHandle>,
    mutex: Option<MutexHandle>,
    old_semaphore: Option<SemaphoreHandle>,
    old_mutex: Option<MutexHandle>,
}

fn error(error: DriverError) -> Error {
    match error {
        DriverError::InvalidHandle => Error::InvalidHandle,
        DriverError::InvalidContext => Error::InvalidContext,
        DriverError::ResourceExhausted => Error::ResourceExhausted,
        DriverError::NoTaskSlots => Error::NoTaskSlots,
        _ => Error::Runtime,
    }
}

fn timeout(wait: Wait) -> WaitTimeout {
    match wait {
        Wait::NoWait => WaitTimeout::NoWait,
        Wait::Milliseconds(value) => {
            WaitTimeout::Milliseconds(NonZeroU32::new(value.get()).unwrap())
        }
        Wait::Forever => WaitTimeout::Forever,
    }
}

fn slot(actor: ActorId) -> usize {
    match actor.into_raw() {
        0 => 0,
        raw => IDLE_SLOT + raw as usize,
    }
}

fn actor(slot: usize) -> ActorId {
    match slot {
        0 => ActorId::MAIN,
        2 => ActorId::WORKER_A,
        3 => ActorId::WORKER_B,
        _ => panic!("slot {slot} is no actor"),
    }
}

impl KernelBackend {
    fn new() -> Self {
        Self {
            kernel: Kernel::new(),
            profile: ExecutionProfile::Cooperative,
            now: 0,
            identity: None,
            semaphore: None,
            mutex: None,
            old_semaphore: None,
            old_mutex: None,
        }
    }

    fn policy(&self) -> RunPolicy {
        match self.profile {
            ExecutionProfile::Cooperative => RunPolicy::Cooperative,
            ExecutionProfile::Preemptive => RunPolicy::Preemptive {
                time_slice: NonZeroU32::new(1).unwrap(),
            },
        }
    }

    fn state(&self, actor: ActorId) -> ActorState {
        match self.kernel.sched.tasks[slot(actor)].state {
            State::Ready => ActorState::Ready,
            State::Running => ActorState::Running,
            State::Blocked | State::Throttled => ActorState::Blocked,
            State::Sleeping => ActorState::Sleeping,
            State::Free => ActorState::Exited,
        }
    }

    fn observe(&self, subject: Option<ActorId>, outcome: ActionOutcome) -> Observation {
        let current = self.kernel.sched.current;
        Observation {
            running: actor(current),
            subject: subject.map(|subject| (subject, self.state(subject))),
            outcome,
            scheduler_lock_depth: self.kernel.sched.tasks[current].scheduler_lock_depth,
            interrupt_depth: self.kernel.interrupt_depth,
        }
    }

    fn execute(&mut self, intent: SwitchIntent) -> ActionOutcome {
        match self.kernel.execute_switch(intent, self.now) {
            SwitchAction::Direct { source, target } => {
                assert_eq!((source, target), (intent.source, intent.target));
                ActionOutcome::ContextSwitched
            }
            SwitchAction::Resumed => ActionOutcome::Completed,
            SwitchAction::Trap { .. } => unreachable!(),
        }
    }

    fn leave(&mut self, previous: usize) -> ActionOutcome {
        match self.kernel.switch_away(previous, self.now) {
            NextTask::Switch(intent) => self.execute(intent),
            NextTask::Resumed | NextTask::Wait => unreachable!(),
        }
    }

    fn waited(&mut self, step: Result<WaitStep, DriverError>) -> Observation {
        let current = self.kernel.sched.current;
        let outcome = match step {
            Ok(WaitStep::Acquired) => ActionOutcome::Acquired,
            Ok(WaitStep::TimedOut) => ActionOutcome::TimedOut,
            Ok(WaitStep::Blocked(slot)) => self.leave(slot),
            Err(cause) => ActionOutcome::Rejected(error(cause)),
        };
        self.observe(Some(actor(current)), outcome)
    }

    fn switched(&mut self, result: Result<Option<SwitchIntent>, DriverError>) -> Observation {
        let current = self.kernel.sched.current;
        let outcome = match result {
            Ok(Some(intent)) => self.execute(intent),
            Ok(None) => ActionOutcome::Completed,
            Err(cause) => ActionOutcome::Rejected(error(cause)),
        };
        self.observe(Some(actor(current)), outcome)
    }

    fn reset(&mut self, profile: ExecutionProfile, main_priority: TaskPriority) {
        *self = Self::new();
        self.profile = profile;
        let boot = BootContext {
            now: 0,
            idle_top: 0x8000,
            trampoline: 0x100,
            idle_entry: 0x200,
            tp: 0,
            fcsr: 0,
        };
        let resources = Resources { dynamic_capacity: 15 };
        let config = CooperativeConfig::default();
        assert!(start_cooperative(&mut self.kernel, config, resources, boot, || Ok(())).is_ok());
        let policy = self.policy();
        let main = &mut self.kernel.sched.tasks[0];
        main.base_priority = main_priority.into_raw();
        main.priority = main_priority.into_raw();
        main.run_policy = policy;
        self.semaphore = self.kernel.semaphore_create(&mut memory(), 0).result.ok();
        self.mutex = self.kernel.mutex_create(&mut memory()).result.ok();
    }

    fn spawn(&mut self, actor: ActorId, priority: TaskPriority) -> Observation {
        let request = SpawnRequest {
            entry: 0x300,
            arg: 0,
            stack_size: 0x1000,
            priority: priority.into_raw(),
            run_policy: self.policy(),
            trampoline: 0x100,
            tp: 0,
            fcsr: 0,
        };
        let slot = slot(actor);
        assert_eq!(self.kernel.sched.tasks[slot].state, State::Free);
        self.kernel.sched.spawn_in_slot(slot, request, 0x10000 * slot, 0x1000, self.now, false);
        let current = &self.kernel.sched.tasks[self.kernel.sched.current];
        let deferred = matches!(self.profile, ExecutionProfile::Preemptive)
            && priority.into_raw() < current.priority
            && current.scheduler_lock_depth != 0;
        let outcome = match self.kernel.sched.take_preemption_target(self.now) {
            Some((previous, next)) => {
                self.kernel.sched.complete_switch(previous, next, self.now);
                ActionOutcome::ContextSwitched
            }
            None if deferred => ActionOutcome::PreemptionDeferred,
            None => ActionOutcome::Spawned,
        };
        self.observe(Some(actor), outcome)
    }

    fn destroy(&mut self, kind: Kind, handle: ResourceHandleRef) -> ActionOutcome {
        let result = match (kind, handle) {
            (Kind::Semaphore, ResourceHandleRef::Current) => {
                self.kernel.semaphore_destroy(self.semaphore.unwrap())
            }
            (Kind::Semaphore, ResourceHandleRef::Remembered) => {
                self.kernel.semaphore_destroy(self.old_semaphore.unwrap())
            }
            (Kind::Mutex, ResourceHandleRef::Current) => {
                self.kernel.mutex_destroy(self.mutex.unwrap())
            }
            (Kind::Mutex, ResourceHandleRef::Remembered) => {
                self.kernel.mutex_destroy(self.old_mutex.unwrap())
            }
        };
        match result {
            Ok(_) => ActionOutcome::ResourceDestroyed,
            Err(cause) => ActionOutcome::Rejected(error(cause)),
        }
    }
}

impl Backend for KernelBackend {
    fn contract(&self) -> RuntimeContract {
        RuntimeContract::V1
    }

    fn execution_profile(&self) -> RuntimeExecutionProfile {
        RuntimeExecutionProfile::V1_PORTED
    }

    fn revision(&self) -> &'static str {
        "kernel"
    }

    fn apply(&mut self, action: Action) -> Result<Observation, Error> {
        let now = self.now;
        Ok(match action {
            Action::Reset { profile, main_priority } => {
                self.reset(profile, main_priority);
                self.observe(Some(ActorId::MAIN), ActionOutcome::Completed)
            }
            Action::Spawn { actor, priority } => self.spawn(actor, priority),
            Action::Yield => {
                let result = self.kernel.yield_now(true, now);
                self.switched(result)
            }
            Action::Delay { milliseconds } | Action::Sleep { milliseconds } => {
                let current = self.kernel.sched.current;
                match self.kernel.sleep_ms(milliseconds, true, now) {
                    Ok(SleepStep::Yielded(switch)) => self.switched(Ok(switch)),
                    Ok(SleepStep::Asleep(slot)) => {
                        let outcome = self.leave(slot);
                        self.observe(Some(actor(slot)), outcome)
                    }
                    Err(cause) => {
                        self.observe(Some(actor(current)), ActionOutcome::Rejected(error(cause)))
                    }
                }
            }
            Action::LockScheduler => {
                let result = self.kernel.lock_scheduler(true, now);
                self.switched(result.map(|()| None))
            }
            Action::UnlockScheduler => {
                let result = self.kernel.unlock_scheduler(true, now);
                self.switched(result)
            }
            Action::EnterInterrupt => {
                interrupt_enter(&mut self.kernel, now);
                self.observe(None, ActionOutcome::Completed)
            }
            Action::ExitInterrupt => {
                if self.kernel.interrupt_depth == 0 {
                    return Ok(
                        self.observe(None, ActionOutcome::Rejected(Error::InvalidContext))
                    );
                }
                interrupt_exit(&mut self.kernel, now);
                let depth = self.kernel.interrupt_depth;
                match self.kernel.sched.take_irq_epilogue_target(depth, now) {
                    Some((previous, next)) => {
                        self.kernel.sched.complete_switch(previous, next, now);
                        self.observe(Some(actor(previous)), ActionOutcome::ContextSwitched)
                    }
                    None => self.observe(None, ActionOutcome::Completed),
                }
            }
            Action::AdvanceTime { milliseconds } => {
                self.now += u64::from(milliseconds);
                self.kernel.sched.wake_sleepers(self.now);
                self.observe(None, ActionOutcome::Completed)
            }
            Action::Observe { actor } => self.observe(Some(actor), ActionOutcome::Completed),
            Action::ExitTask => {
                let slot = self.kernel.task_exit(true);
                let outcome = self.leave(slot);
                self.observe(Some(actor(slot)), outcome)
            }
            Action::SemaphoreWait { timeout: wait } => {
                let handle = self.semaphore.unwrap();
                let step = self.kernel.semaphore_down(handle, timeout(wait), true, now);
                self.waited(step)
            }
            Action::SemaphorePost => {
                let raw = self.semaphore.unwrap().raw;
                let index = self.kernel.handles.find(raw, ResourceKind::Semaphore).unwrap();
                match self.kernel.sched.release_semaphore_locked(index, now) {
                    NIL => self.observe(None, ActionOutcome::Completed),
                    slot => self.observe(Some(actor(slot)), ActionOutcome::Granted),
                }
            }
            Action::ObserveGrant { actor } => {
                let outcome = if self.kernel.sched.tasks[slot(actor)].sem_granted {
                    ActionOutcome::Acquired
                } else {
                    ActionOutcome::TimedOut
                };
                self.observe(Some(actor), outcome)
            }
            Action::MutexLock { timeout: wait } => {
                let handle = self.mutex.unwrap();
                let step = self.kernel.mutex_lock(handle, timeout(wait), true, now);
                self.waited(step)
            }
            Action::MutexUnlock => {
                let handle = self.mutex.unwrap();
                let step = self.kernel.mutex_unlock(handle, true, now).map_err(error)?;
                assert_eq!(step.switch, None);
                match self.kernel.sched.tasks.iter().position(|task| task.granted_mutex != 0) {
                    Some(slot) => self.observe(Some(actor(slot)), ActionOutcome::Granted),
                    None => self.observe(None, ActionOutcome::Completed),
                }
            }
            Action::ObservePriority { actor } => {
                let priority = self.kernel.sched.tasks[slot(actor)].priority;
                self.observe(
                    Some(actor),
                    ActionOutcome::PriorityObserved(TaskPriority::new(priority).unwrap()),
                )
            }
            Action::RememberIdentity { actor } => {
                let slot = slot(actor);
                let generation = self.kernel.sched.tasks[slot].identity_generation;
                self.identity = encode_task_id(slot, generation).ok();
                self.observe(Some(actor), ActionOutcome::IdentityRemembered)
            }
            Action::ValidateRememberedIdentity => {
                let outcome = match self.kernel.set_task_priority(self.identity.unwrap(), 1) {
                    Err(DriverError::InvalidHandle) => ActionOutcome::StaleIdentityRejected,
                    _ => ActionOutcome::Completed,
                };
                self.observe(None, outcome)
            }
            Action::CreateResource { kind } => {
                match kind {
                    Kind::Semaphore => self.semaphore = self.kernel.semaphore_create(&mut memory(), 0).result.ok(),
                    Kind::Mutex => self.mutex = self.kernel.mutex_create(&mut memory()).result.ok(),
                }
                self.observe(None, ActionOutcome::ResourceCreated)
            }
            Action::RememberResourceHandle { kind } => {
                match kind {
                    Kind::Semaphore => self.old_semaphore = self.semaphore,
                    Kind::Mutex => self.old_mutex = self.mutex,
                }
                self.observe(None, ActionOutcome::ResourceHandleRemembered)
            }
            Action::DestroyResource { kind, handle } => {
                let outcome = self.destroy(kind, handle);
                self.observe(None, outcome)
            }
            Action::CancelWait { actor } => {
                let slot = slot(actor);
                let generation = self.kernel.sched.tasks[slot].identity_generation;
                let task = encode_task_id(slot, generation).map_err(error)?;
                let outcome = match self.kernel.cancel_wait(task, now) {
                    Ok(WaitCancellationOutcome::Cancelled) => ActionOutcome::WaitCancelled,
                    Ok(WaitCancellationOutcome::NotWaiting) => ActionOutcome::NoPendingWait,
                    Err(cause) => ActionOutcome::Rejected(error(cause)),
                };
                self.observe(Some(actor), outcome)
            }
        })
    }
}

#[test]
fn runtime_v1_executes_shared_conformance_scenarios() {
    let mut backend = KernelBackend::new();
    let report = run_suite(&mut backend, &V1_SCENARIOS);
    assert!(report.all_passed(), "{report:?}");

    let mut json = String::new();
    report.write_json(&mut json).unwrap();
    assert!(json.contains(&format!("\"schema_version\":{SCHEMA_VERSION}")));
    assert!(json.contains("\"priority_then_fifo\""));
    assert!(json.contains("\"nested_scheduler_lock\""));
    assert!(!json.contains("\"status\":\"failed\""));
}
