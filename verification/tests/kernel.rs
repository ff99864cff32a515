//! The runtime kernel: starting, tasks, switches, the timer and synchronisation objects.
use std::cell::{Cell, RefCell};

use hisi_rtos::admission::{
    TaskCapacity, TaskExecutionPolicy, TaskResourceGroupRequirements, TaskResourcePlan,
    TaskResourceRequirements,
};
use hisi_rtos::alarm::EmbassyTimers;
use hisi_rtos::blocks::{RecordedStorage, SuppliedBlocks};
use hisi_rtos::config::{
    Config, ContractViolation, CooperativeConfig, PortedConfig, Resources, SchedulerPort,
    SchedulingPolicy, StartError, TaskDiagnostic, TaskState, IDLE_SLOT,
};
use hisi_rtos::error::{
    DriverError, MutexHandle, SemaphoreHandle, TaskAdmissionError, TaskId, TaskReservation,
    TaskResourceOwner, WaitCancellationOutcome, WaitOutcome, WaitTimeout,
};
use hisi_rtos::kernel::{
    diagnostics, interrupt_enter, interrupt_exit, on_software_interrupt, on_timer_interrupt,
    request_reschedule, start, start_cooperative, start_with_port, task_diagnostics, timer_action,
    Kernel, NextTask, SwitchAction, TimerAction,
};
use hisi_rtos::lifecycle::{BootContext, SpawnRequest};
use hisi_rtos::nonzero::{NonZeroU32, NonZeroUsize};
use hisi_rtos::objects::ReleaseStep;
use hisi_rtos::reserve::PlanRefusal;
use hisi_rtos::scheduler::{MutexState, SemState};
use hisi_rtos::scheduling::{BudgetSpec, RunPolicy};
use hisi_rtos::semaphore::WaitStep;
use hisi_rtos::services::{SleepStep, StackSource};
use hisi_rtos::storage::SchedulerStorage;
use hisi_rtos::task::State;

const MINIMUM_STACK: usize = 24 * 1024;

fn u32_of(value: u32) -> NonZeroU32 {
    NonZeroU32::new(value).unwrap()
}

fn usize_of(value: usize) -> NonZeroUsize {
    NonZeroUsize::new(value).unwrap()
}

/// Answers requests from a list, and with no memory once the list is used up.
struct Script {
    answers: Vec<usize>,
    sizes: RefCell<Vec<usize>>,
    probes: Cell<usize>,
}

impl Script {
    fn new(answers: &[usize]) -> Self {
        Script { answers: answers.to_vec(), sizes: RefCell::new(Vec::new()), probes: Cell::new(0) }
    }

    fn answer(&self, size: usize) -> usize {
        let mut sizes = self.sizes.borrow_mut();
        sizes.push(size);
        self.answers.get(sizes.len() - 1).copied().unwrap_or(0)
    }

    fn probe(&self) -> usize {
        self.probes.set(self.probes.get() + 1);
        7 * 1024
    }

    fn blocks(&self) -> SuppliedBlocks<impl Fn(usize) -> usize + '_, impl Fn() -> usize + '_> {
        SuppliedBlocks::new(|size| self.answer(size), || self.probe())
    }

    fn asked(&self) -> Vec<usize> {
        self.sizes.borrow().clone()
    }
}

fn semaphore(kernel: &mut Kernel, initial: u32) -> SemaphoreHandle {
    kernel.semaphore_create(&mut Script::new(&[0x1000]).blocks(), initial).result.unwrap()
}

fn mutex(kernel: &mut Kernel) -> MutexHandle {
    kernel.mutex_create(&mut Script::new(&[0x2000]).blocks()).result.unwrap()
}

fn boot() -> BootContext {
    BootContext {
        now: 0,
        idle_top: 0x8000,
        trampoline: 0x100,
        idle_entry: 0x200,
        tp: 7,
        fcsr: 3,
    }
}

fn resources() -> Resources {
    Resources { dynamic_capacity: 15 }
}

fn port() -> SchedulerPort {
    SchedulerPort { max_timer_delay: u32_of(50) }
}

fn cooperative() -> Kernel {
    let mut kernel = Kernel::new();
    let config = CooperativeConfig::default();
    assert!(start_cooperative(&mut kernel, config, resources(), boot(), || Ok(())).is_ok());
    kernel
}

fn ported() -> Kernel {
    let mut kernel = Kernel::new();
    let config = PortedConfig::default();
    assert!(start_with_port(&mut kernel, config, resources(), port(), boot(), || Ok(())).is_ok());
    kernel
}

fn request(priority: u8) -> SpawnRequest {
    SpawnRequest {
        entry: 0x300,
        arg: 9,
        stack_size: 1024,
        priority,
        run_policy: RunPolicy::Cooperative,
        trampoline: 0x100,
        tp: 7,
        fcsr: 3,
    }
}

fn spawn(kernel: &mut Kernel, priority: u8, stack: usize) -> TaskId {
    let outcome = kernel.spawn(request(priority), None, stack, 0);
    assert_eq!(outcome.release, 0);
    outcome.result.unwrap()
}

/// Switches a port-less kernel to another task at a yield.
fn yield_to_other(kernel: &mut Kernel) -> usize {
    let intent = kernel.yield_now(true, 0).unwrap().unwrap();
    let target = intent.target;
    assert_eq!(
        kernel.execute_switch(intent, 0),
        SwitchAction::Direct { source: intent.source, target }
    );
    assert_eq!(kernel.sched.current, target);
    target
}

/// Leaves a task that gave up running.
fn leave(kernel: &mut Kernel, slot: usize, now: u64) -> usize {
    match kernel.switch_away(slot, now) {
        NextTask::Switch(intent) => {
            kernel.execute_switch(intent, now);
            kernel.sched.current
        }
        other => panic!("{other:?}"),
    }
}

#[test]
fn a_runtime_starts_once() {
    let mut kernel = cooperative();
    let config = CooperativeConfig::default();
    assert!(matches!(
        start_cooperative(&mut kernel, config, resources(), boot(), || Ok(())),
        Err(StartError::AlreadyStarted)
    ));
    assert!(matches!(
        start_with_port(
            &mut kernel,
            PortedConfig::default(),
            resources(),
            port(),
            boot(),
            || Ok(())
        ),
        Err(StartError::AlreadyStarted)
    ));
    assert_eq!(
        start(&mut kernel, Config::default(), resources(), boot(), || Ok(())),
        Err(StartError::AlreadyStarted)
    );
}

#[test]
fn a_refused_installation_leaves_the_runtime_unstarted() {
    let mut kernel = Kernel::new();
    let refuse = || Err(DriverError::AlreadyInstalled);
    assert!(matches!(
        start_cooperative(&mut kernel, CooperativeConfig::default(), resources(), boot(), refuse),
        Err(StartError::Driver(DriverError::AlreadyInstalled))
    ));
    assert!(kernel.start.is_none());
    assert!(!kernel.sched.started);
    assert!(
        start_cooperative(&mut kernel, CooperativeConfig::default(), resources(), boot(), || Ok(
            ()
        ))
        .is_ok()
    );
}

#[test]
fn starting_adopts_main_and_prepares_idle() {
    let kernel = ported();
    let sched = &kernel.sched;
    assert_eq!(sched.current, 0);
    assert_eq!(sched.tasks[0].state, State::Running);
    assert_eq!(sched.tasks[IDLE_SLOT].state, State::Ready);
    assert_eq!(sched.tasks[IDLE_SLOT].saved_frame, 0x8000 - 272);
    assert_eq!(sched.tasks[IDLE_SLOT].ctx.mepc, 0x100);
    assert_eq!(sched.tasks[IDLE_SLOT].ctx.sp, 0x8000);
    assert!(sched.started);
    assert!(kernel.is_ported());
    assert!(request_reschedule(&kernel));
    assert!(!request_reschedule(&cooperative()));
}

#[test]
fn a_firmware_wide_policy_has_no_idle_thread() {
    let mut kernel = Kernel::new();
    let config = Config { scheduling: SchedulingPolicy::Priority, ..Config::default() };
    assert_eq!(start(&mut kernel, config, resources(), boot(), || Ok(())), Ok(()));
    let task = spawn(&mut kernel, 4, 0x10000);
    assert_eq!(kernel.sched.tasks[1].state, State::Ready);
    assert_eq!(kernel.sched.tasks[1].priority, 4);
    assert_eq!(kernel.set_task_priority(task, 6), Ok(()));
    assert_eq!(kernel.sched.tasks[1].base_priority, 6);
    match kernel.sleep_ms(5, true, 0) {
        Ok(SleepStep::Asleep(0)) => {}
        other => panic!("{other:?}"),
    }
    assert_eq!(leave(&mut kernel, 0, 1), 1);
    match kernel.sleep_ms(5, true, 1) {
        Ok(SleepStep::Asleep(1)) => {}
        other => panic!("{other:?}"),
    }
    assert_eq!(kernel.switch_away(1, 2), NextTask::Wait);
}

#[test]
fn a_task_gets_its_stack_slot_and_identity() {
    let mut kernel = cooperative();
    let task = spawn(&mut kernel, 5, 0x10000);
    let block = &kernel.sched.tasks[2];
    assert_eq!(block.state, State::Ready);
    assert_eq!(block.stack, 0x10000);
    assert_eq!(block.stack_size, MINIMUM_STACK);
    assert_eq!(block.ctx.sp as usize, 0x10000 + MINIMUM_STACK);
    assert_eq!(block.ctx.mepc, 0x100);
    assert_eq!(block.ctx.tp, 7);
    assert_eq!(block.ctx.fcsr, 3);
    assert_eq!(block.entry, Some(0x300));
    assert_eq!(block.arg, 9);
    assert_eq!(block.identity_generation, 1);
    assert_eq!(task, TaskId::from_raw((1 << 8) | 2));
}

#[test]
fn a_task_without_memory_or_slot_is_refused() {
    let mut kernel = Kernel::new();
    let few = Resources { dynamic_capacity: 1 };
    let config = CooperativeConfig::default();
    assert!(start_cooperative(&mut kernel, config, few, boot(), || Ok(())).is_ok());
    let outcome = kernel.spawn(request(4), None, 0, 0);
    assert_eq!(outcome.result, Err(DriverError::ResourceExhausted));
    assert_eq!(outcome.release, 0);
    spawn(&mut kernel, 4, 0x10000);
    let outcome = kernel.spawn(request(4), None, 0x20000, 0);
    assert_eq!(outcome.result, Err(DriverError::NoTaskSlots));
    assert_eq!(outcome.release, 0x20000);
}

#[test]
fn storage_without_an_arena_has_no_stack_for_a_task() {
    let mut kernel = cooperative();
    let storage = SchedulerStorage::<3>::new();
    let mut memory = RecordedStorage::new(&storage);
    let outcome = kernel.spawn_from(&mut memory, request(4), None, 0);
    assert_eq!(outcome.result, Err(DriverError::ResourceExhausted));
    let required = TaskResourceRequirements::new(usize_of(2), usize_of(4096)).unwrap();
    let outcome = kernel.reserve_task_resources(&mut memory, required);
    assert_eq!(
        outcome.result,
        Err(TaskAdmissionError::InsufficientTaskStackMemory { required: 8192, available: 0 })
    );
    assert!(outcome.release.is_empty());
    let groups =
        [TaskResourceGroupRequirements::new(TaskResourceOwner::new(u32_of(1)), required)];
    let plan = TaskResourcePlan::new(&groups).unwrap();
    let outcome = kernel.reserve_task_resource_plan(&mut memory, plan);
    assert!(matches!(
        outcome.result,
        Err(PlanRefusal::Refused(TaskAdmissionError::InsufficientTaskGroupStackMemory {
            required: 8192,
            available: 0,
            largest_contiguous: 0,
            ..
        }))
    ));
    assert!(outcome.release.is_empty());
    assert_eq!(diagnostics(&kernel).dynamic_reserved, 0);
}

#[test]
fn a_reserved_stack_serves_a_task_that_fits() {
    let mut kernel = cooperative();
    let mut stacks = [0usize; 15];
    stacks[0] = 0x10000;
    let required = TaskResourceRequirements::new(usize_of(1), usize_of(MINIMUM_STACK)).unwrap();
    let token =
        kernel.sched.reserve_dynamic_task_resources_with_capacity(required, stacks, 15).unwrap();
    assert_eq!(
        kernel.stack_source(Some(token), 1024),
        Ok(StackSource::Reserved(MINIMUM_STACK))
    );
    assert_eq!(
        kernel.stack_source(Some(token), MINIMUM_STACK + 1),
        Err(DriverError::ResourceExhausted)
    );
    assert_eq!(kernel.stack_source(None, 1024), Ok(StackSource::Fresh(MINIMUM_STACK)));
    let outcome = kernel.spawn(request(4), Some(token), 0, 0);
    assert!(outcome.result.is_ok());
    assert_eq!(kernel.sched.tasks[2].stack, 0x10000);
    let outcome = kernel.spawn(request(4), Some(token), 0, 0);
    assert_eq!(outcome.result, Err(DriverError::ResourceExhausted));
    let outcome = kernel.spawn(request(4), Some(token), 0x20000, 0);
    assert_eq!(outcome.result, Err(DriverError::NoTaskSlots));
    assert_eq!(outcome.release, 0x20000);
    let stale = TaskReservation::from_raw(u32_of(0x7701));
    let outcome = kernel.spawn(request(4), Some(stale), 0, 0);
    assert_eq!(outcome.result, Err(DriverError::ResourceExhausted));
    assert_eq!(outcome.release, 0);
    let outcome = kernel.spawn(request(4), Some(stale), 0x30000, 0);
    assert_eq!(outcome.result, Err(DriverError::InvalidHandle));
    assert_eq!(outcome.release, 0x30000);
    assert_eq!(kernel.release_task_reservation(&token).unwrap().count, 0);
    assert_eq!(kernel.release_task_reservation(&token), Err(DriverError::InvalidHandle));
}

#[test]
fn capacity_counts_live_and_promised_slots() {
    let mut kernel = cooperative();
    spawn(&mut kernel, 4, 0x10000);
    let token = kernel.reserve_tasks(usize_of(3)).unwrap();
    let capacity = kernel.task_capacity().unwrap();
    assert_eq!(
        capacity,
        TaskCapacity { dynamic_capacity: 15, dynamic_used: 1, dynamic_reserved: 3 }
    );
    assert_eq!(capacity.dynamic_available(), 11);
    assert_eq!(
        kernel.reserve_tasks(usize_of(12)),
        Err(TaskAdmissionError::InsufficientTaskSlots { required: 12, available: 11 })
    );
    assert!(kernel.release_task_reservation(&token).is_ok());
    assert_eq!(TaskCapacity::new_with_reserved(4, 3, 2), None);
    assert!(TaskCapacity::new_with_reserved(5, 3, 2).is_some());
}

#[test]
fn four_reservations_can_be_outstanding() {
    let mut kernel = cooperative();
    for _ in 0..4 {
        assert!(kernel.reserve_tasks(usize_of(1)).is_ok());
    }
    assert_eq!(
        kernel.reserve_tasks(usize_of(1)),
        Err(TaskAdmissionError::Runtime(DriverError::ResourceExhausted))
    );
}

#[test]
fn radio_tasks_have_a_default_policy() {
    let mut kernel = Kernel::new();
    let policy = RunPolicy::Preemptive { time_slice: u32_of(5) };
    let config = PortedConfig { radio_task_policy: policy, ..PortedConfig::default() };
    assert!(start_with_port(&mut kernel, config, resources(), port(), boot(), || Ok(())).is_ok());
    assert_eq!(kernel.spawn_policy(None), Ok(policy));
    assert_eq!(
        kernel.spawn_policy(Some(TaskExecutionPolicy::Cooperative)),
        Ok(RunPolicy::Cooperative)
    );
    assert_eq!(
        cooperative().spawn_policy(Some(TaskExecutionPolicy::Preemptive {
            time_slice_ms: u32_of(5)
        })),
        Err(DriverError::IncompatibleExecutionProfile)
    );
}

#[test]
fn reusing_a_slot_outdates_the_former_identity() {
    let mut kernel = cooperative();
    let former = spawn(&mut kernel, 4, 0x10000);
    yield_to_other(&mut kernel);
    assert_eq!(kernel.current_task(), Ok(former));
    let slot = kernel.task_exit(true);
    assert_eq!(slot, 2);
    assert_eq!(leave(&mut kernel, slot, 0), 0);
    assert_eq!(kernel.sched.reclaim_retired_stacks(), vec![0x10000]);
    assert_eq!(kernel.set_task_priority(former, 1), Err(DriverError::InvalidHandle));
    let successor = spawn(&mut kernel, 4, 0x20000);
    assert_ne!(former, successor);
    assert_eq!(kernel.set_task_priority(former, 1), Err(DriverError::InvalidHandle));
    assert_eq!(kernel.cancel_wait(former, 0), Err(DriverError::InvalidHandle));
    assert_eq!(kernel.set_task_priority(successor, 1), Ok(()));
    assert_eq!(kernel.sched.tasks[2].priority, 1);
}

#[test]
fn a_port_switches_by_trap() {
    let mut kernel = ported();
    spawn(&mut kernel, 4, 0x10000);
    let frame = kernel.sched.tasks[2].saved_frame;
    assert_eq!(frame, 0x10000 + MINIMUM_STACK - 272);
    assert_eq!(kernel.yield_now(false, 1), Err(DriverError::InvalidContext));
    let intent = kernel.yield_now(true, 1).unwrap().unwrap();
    let action = kernel.execute_switch(intent, 1);
    assert_eq!(action, SwitchAction::Trap { source: 0, activation: 0 });
    assert!(!kernel.switch_resumed(0, 0));
    on_software_interrupt(&mut kernel);
    assert_eq!(kernel.irq_epilogue(0x5000, 2), frame);
    assert_eq!(kernel.sched.current, 2);
    assert_eq!(kernel.sched.tasks[0].saved_frame, 0x5000);
    let intent = kernel.yield_now(true, 3).unwrap().unwrap();
    assert_eq!(
        kernel.execute_switch(intent, 3),
        SwitchAction::Trap { source: 2, activation: 1 }
    );
    assert_eq!(kernel.irq_epilogue(0x6000, 4), 0x5000);
    assert!(kernel.switch_resumed(0, 0));
    assert_eq!(diagnostics(&kernel).context_switches, 2);
    assert_eq!(diagnostics(&kernel).software_interrupts, 1);
    assert_eq!(diagnostics(&kernel).switch_intents_completed, 2);
}

#[test]
fn an_interrupt_that_served_a_switch_request_outdates_it() {
    let mut kernel = ported();
    spawn(&mut kernel, 4, 0x10000);
    let intent = kernel.yield_now(true, 1).unwrap().unwrap();
    // The trap of another interrupt switches first and the yielding task comes back.
    assert_eq!(kernel.sched.ready_pop(), 0);
    kernel.sched.complete_switch(0, 0, 1);
    kernel.sched.tasks[0].resume_generation = 1;
    assert_eq!(kernel.execute_switch(intent, 2), SwitchAction::Resumed);
    assert!(kernel.sched.pending_switch.is_none());
    assert_eq!(kernel.sched.ready_pop(), 2);
}

#[test]
fn the_timer_is_programmed_for_the_next_deadline() {
    let limit = u32_of(50);
    assert_eq!(timer_action(None, 10, limit), TimerAction::Disarm);
    assert_eq!(timer_action(Some(40), 10, limit), TimerAction::Arm(u32_of(30)));
    assert_eq!(timer_action(Some(10), 10, limit), TimerAction::Arm(u32_of(1)));
    assert_eq!(timer_action(Some(3), 10, limit), TimerAction::Arm(u32_of(1)));
    assert_eq!(timer_action(Some(1000), 10, limit), TimerAction::Arm(limit));

    let mut timers = EmbassyTimers::new();
    assert_eq!(cooperative().rearm_timer(&mut timers, 0), None);

    let mut kernel = ported();
    let idle = kernel.rearm_timer(&mut timers, 10).unwrap();
    assert_eq!(idle.action, TimerAction::Disarm);
    assert!(kernel.timer_plan_is_current(idle));
    assert_eq!(kernel.sleep_ms(20, true, 10), Ok(SleepStep::Asleep(0)));
    let armed = kernel.rearm_timer(&mut timers, 12).unwrap();
    assert_eq!(armed.action, TimerAction::Arm(u32_of(18)));
    assert!(!kernel.timer_plan_is_current(idle));
    assert!(kernel.timer_plan_is_current(armed));
}

#[test]
fn the_timer_wakes_sleepers_and_ends_time_slices() {
    let mut kernel = ported();
    let mut timers = EmbassyTimers::new();
    let policy = RunPolicy::Preemptive { time_slice: u32_of(5) };
    kernel.sched.set_run_policy(0, policy, 0);
    let outcome = kernel.spawn(SpawnRequest { run_policy: policy, ..request(31) }, None, 0x10000, 0);
    assert!(outcome.result.is_ok());
    let plan = kernel.rearm_timer(&mut timers, 0).unwrap();
    assert_eq!(plan.action, TimerAction::Arm(u32_of(5)));
    interrupt_enter(&mut kernel, 5);
    assert_eq!(on_timer_interrupt(&mut kernel, 5), None);
    assert!(kernel.sched.time_slice_pending);
    assert_eq!(kernel.irq_epilogue(0x5000, 5), 0x5000);
    interrupt_exit(&mut kernel, 5);
    let frame = kernel.sched.tasks[2].saved_frame;
    assert_eq!(kernel.irq_epilogue(0x5000, 5), frame);
    assert_eq!(kernel.sched.current, 2);
    assert_eq!(diagnostics(&kernel).time_slice_preemptions, 1);
    assert_eq!(diagnostics(&kernel).timer_interrupts, 1);

    assert_eq!(kernel.sleep_ms(10, true, 6), Ok(SleepStep::Asleep(2)));
    assert_eq!(kernel.sched.earliest_wake_deadline(), Some(16));
    assert_eq!(on_timer_interrupt(&mut kernel, 15), None);
    assert_eq!(kernel.sched.tasks[2].state, State::Sleeping);
    assert_eq!(on_timer_interrupt(&mut kernel, 16), None);
    assert_eq!(kernel.sched.tasks[2].state, State::Ready);
}

#[test]
fn a_lock_held_too_long_is_reported() {
    let mut kernel = ported();
    assert_eq!(kernel.lock_scheduler(false, 10), Err(DriverError::InvalidContext));
    assert_eq!(kernel.lock_scheduler(true, 10), Ok(()));
    assert_eq!(on_timer_interrupt(&mut kernel, 109), None);
    assert_eq!(
        on_timer_interrupt(&mut kernel, 110),
        Some(ContractViolation::SchedulerLockOverrun {
            task_slot: 0,
            held_ms: 100,
            limit_ms: 100,
        })
    );
    assert_eq!(kernel.unlock_scheduler(true, 111), Ok(None));
    assert_eq!(kernel.unlock_scheduler(true, 111), Err(DriverError::InvalidContext));
}

#[test]
fn the_lock_cannot_nest_beyond_its_counter() {
    let mut kernel = cooperative();
    kernel.sched.tasks[0].scheduler_lock_depth = u16::MAX;
    assert_eq!(kernel.lock_scheduler(true, 0), Err(DriverError::Runtime));
    assert_eq!(kernel.sched.tasks[0].scheduler_lock_depth, u16::MAX);
}

#[test]
fn a_budgeted_task_is_throttled_and_comes_back() {
    let mut kernel = ported();
    let spec = BudgetSpec::try_new(u32_of(5), u32_of(20)).unwrap();
    kernel.sched.set_run_policy(0, RunPolicy::Budgeted(spec), 0);
    let mut timers = EmbassyTimers::new();
    let plan = kernel.rearm_timer(&mut timers, 0).unwrap();
    assert_eq!(plan.action, TimerAction::Arm(u32_of(5)));
    assert_eq!(on_timer_interrupt(&mut kernel, 5), None);
    assert_eq!(kernel.sched.tasks[0].state, State::Throttled);
    let idle_frame = kernel.sched.tasks[IDLE_SLOT].saved_frame;
    assert_eq!(kernel.irq_epilogue(0x5000, 5), idle_frame);
    let plan = kernel.rearm_timer(&mut timers, 5).unwrap();
    assert_eq!(plan.action, TimerAction::Arm(u32_of(15)));
    assert_eq!(on_timer_interrupt(&mut kernel, 20), None);
    assert_eq!(kernel.irq_epilogue(0x6000, 20), 0x5000);
    assert_eq!(kernel.sched.current, 0);
    assert_eq!(kernel.sched.tasks[0].budget.remaining(), 5);
}

#[test]
fn interrupt_depth_counts_nested_handlers() {
    let mut kernel = cooperative();
    interrupt_enter(&mut kernel, 3);
    interrupt_enter(&mut kernel, 4);
    assert_eq!(kernel.interrupt_depth, 2);
    assert_eq!(
        kernel.cancel_wait(kernel.current_task().unwrap(), 5),
        Err(DriverError::InvalidContext)
    );
    interrupt_exit(&mut kernel, 6);
    interrupt_exit(&mut kernel, 9);
    assert_eq!(kernel.interrupt_depth, 0);
    assert_eq!(kernel.sched.tasks[0].metrics.irq_entries, 1);
    assert_eq!(kernel.sched.tasks[0].metrics.irq_time_ms, 6);
}

#[test]
fn semaphore_permits_are_neither_lost_nor_minted() {
    let mut kernel = cooperative();
    let semaphore = semaphore(&mut kernel, 1);
    let task = spawn(&mut kernel, 4, 0x10000);
    assert_eq!(
        kernel.semaphore_down(semaphore, WaitTimeout::NoWait, true, 0),
        Ok(WaitStep::Acquired)
    );
    assert_eq!(
        kernel.semaphore_down(semaphore, WaitTimeout::NoWait, true, 0),
        Ok(WaitStep::TimedOut)
    );
    yield_to_other(&mut kernel);
    assert_eq!(
        kernel.semaphore_down(semaphore, WaitTimeout::Forever, true, 0),
        Ok(WaitStep::Blocked(2))
    );
    assert_eq!(leave(&mut kernel, 2, 0), 0);
    assert_eq!(kernel.semaphore_destroy(semaphore), Err(DriverError::InvalidContext));
    let step = kernel.semaphore_up(semaphore, true, 1).unwrap();
    assert_eq!(step.switch, None);
    // The permit belongs to the waiter: nobody else finds it.
    assert_eq!(
        kernel.semaphore_down(semaphore, WaitTimeout::NoWait, true, 1),
        Ok(WaitStep::TimedOut)
    );
    assert_eq!(kernel.semaphore_destroy(semaphore), Err(DriverError::InvalidContext));
    assert_eq!(kernel.cancel_wait(task, 1), Ok(WaitCancellationOutcome::Cancelled));
    assert_eq!(kernel.cancel_wait(task, 1), Ok(WaitCancellationOutcome::NotWaiting));
    assert_eq!(
        kernel.semaphore_down(semaphore, WaitTimeout::NoWait, true, 1),
        Ok(WaitStep::Acquired)
    );
    assert_eq!(kernel.semaphore_destroy(semaphore), Ok(0x1000));
    assert_eq!(kernel.semaphore_destroy(semaphore), Err(DriverError::InvalidHandle));
    assert_eq!(kernel.semaphore_up(semaphore, true, 1), Err(DriverError::InvalidHandle));
    assert_eq!(
        kernel.semaphore_down(semaphore, WaitTimeout::NoWait, true, 1),
        Err(DriverError::InvalidHandle)
    );
}

#[test]
fn a_wait_ends_with_a_grant_or_its_deadline() {
    let mut kernel = cooperative();
    let semaphore = semaphore(&mut kernel, 0);
    spawn(&mut kernel, 4, 0x10000);
    yield_to_other(&mut kernel);
    let five = WaitTimeout::Milliseconds(u32_of(5));
    assert_eq!(kernel.semaphore_down(semaphore, five, true, 10), Ok(WaitStep::Blocked(2)));
    assert_eq!(leave(&mut kernel, 2, 10), 0);
    kernel.sched.wake_sleepers(14);
    assert_eq!(kernel.sched.tasks[2].state, State::Blocked);
    kernel.sched.wake_sleepers(15);
    assert_eq!(kernel.sched.tasks[2].state, State::Ready);
    assert_eq!(yield_to_other(&mut kernel), 2);
    assert_eq!(kernel.finish_semaphore_wait(), WaitOutcome::TimedOut);

    assert_eq!(kernel.semaphore_down(semaphore, five, true, 15), Ok(WaitStep::Blocked(2)));
    assert_eq!(leave(&mut kernel, 2, 15), 0);
    assert!(kernel.semaphore_up(semaphore, true, 16).is_ok());
    kernel.sched.wake_sleepers(20);
    assert_eq!(yield_to_other(&mut kernel), 2);
    assert_eq!(kernel.finish_semaphore_wait(), WaitOutcome::Acquired);
    assert_eq!(kernel.sched.tasks[2].granted_sem, 0);
}

#[test]
fn a_release_preempts_at_once_or_through_the_port() {
    let mut kernel = ported();
    let policy = RunPolicy::Preemptive { time_slice: u32_of(5) };
    kernel.sched.set_run_policy(0, policy, 0);
    let semaphore = semaphore(&mut kernel, 0);
    spawn(&mut kernel, 4, 0x10000);
    let intent = kernel.yield_now(true, 0).unwrap().unwrap();
    kernel.execute_switch(intent, 0);
    kernel.irq_epilogue(0x5000, 0);
    assert_eq!(
        kernel.semaphore_down(semaphore, WaitTimeout::Forever, true, 0),
        Ok(WaitStep::Blocked(2))
    );
    match kernel.switch_away(2, 0) {
        NextTask::Switch(intent) => kernel.execute_switch(intent, 0),
        other => panic!("{other:?}"),
    };
    assert_eq!(kernel.irq_epilogue(0x6000, 0), 0x5000);

    interrupt_enter(&mut kernel, 1);
    let step = kernel.semaphore_up(semaphore, false, 1).unwrap();
    assert_eq!(step, ReleaseStep { switch: None, reschedule: false });
    interrupt_exit(&mut kernel, 1);
    assert_eq!(kernel.irq_epilogue(0x5000, 1), 0x6000);
    assert_eq!(kernel.sched.current, 2);
    assert_eq!(kernel.finish_semaphore_wait(), WaitOutcome::Acquired);

    assert_eq!(
        kernel.semaphore_down(semaphore, WaitTimeout::Forever, true, 2),
        Ok(WaitStep::Blocked(2))
    );
    match kernel.switch_away(2, 2) {
        NextTask::Switch(intent) => kernel.execute_switch(intent, 2),
        other => panic!("{other:?}"),
    };
    kernel.irq_epilogue(0x6000, 2);
    let step = kernel.semaphore_up(semaphore, true, 3).unwrap();
    assert_eq!(step.switch.map(|intent| (intent.source, intent.target)), Some((0, 2)));
    assert!(!step.reschedule);
}

#[test]
fn a_release_with_interrupts_masked_asks_for_a_scheduling_point() {
    let mut kernel = ported();
    let semaphore = semaphore(&mut kernel, 0);
    let step = kernel.semaphore_up(semaphore, false, 1).unwrap();
    assert_eq!(step, ReleaseStep { switch: None, reschedule: true });
    assert_eq!(
        kernel.semaphore_down(semaphore, WaitTimeout::NoWait, false, 1),
        Ok(WaitStep::Acquired)
    );
}

#[test]
fn an_undeliverable_wait_changes_nothing() {
    let mut kernel = ported();
    let semaphore = semaphore(&mut kernel, 0);
    assert_eq!(
        kernel.semaphore_down(semaphore, WaitTimeout::Forever, false, 0),
        Err(DriverError::InvalidContext)
    );
    assert_eq!(kernel.sleep_ms(5, false, 0), Err(DriverError::InvalidContext));
    assert_eq!(kernel.sched.tasks[0].state, State::Running);
    assert_eq!(kernel.sched.tasks[0].waiting_sem, 0);
    assert_eq!(
        kernel.semaphore_down(semaphore, WaitTimeout::NoWait, false, 0),
        Ok(WaitStep::TimedOut)
    );
    assert_eq!(kernel.lock_scheduler(true, 0), Ok(()));
    assert_eq!(
        kernel.semaphore_down(semaphore, WaitTimeout::Forever, true, 0),
        Err(DriverError::InvalidContext)
    );
    assert_eq!(kernel.sleep_ms(5, true, 0), Err(DriverError::InvalidContext));
    assert_eq!(kernel.yield_now(true, 0), Err(DriverError::InvalidContext));
}

#[test]
fn a_mutex_nests_and_only_its_owner_releases_it() {
    let mut kernel = cooperative();
    let mutex = mutex(&mut kernel);
    spawn(&mut kernel, 4, 0x10000);
    assert_eq!(
        kernel.mutex_lock(mutex, WaitTimeout::Forever, true, 0),
        Ok(WaitStep::Acquired)
    );
    assert_eq!(
        kernel.mutex_lock(mutex, WaitTimeout::Forever, true, 0),
        Ok(WaitStep::Acquired)
    );
    yield_to_other(&mut kernel);
    assert_eq!(kernel.mutex_unlock(mutex, true, 0), Err(DriverError::InvalidContext));
    assert_eq!(
        kernel.mutex_lock(mutex, WaitTimeout::NoWait, true, 0),
        Ok(WaitStep::TimedOut)
    );
    assert_eq!(
        kernel.mutex_lock(mutex, WaitTimeout::Forever, true, 0),
        Ok(WaitStep::Blocked(2))
    );
    assert_eq!(kernel.sched.tasks[0].priority, 4);
    assert_eq!(leave(&mut kernel, 2, 0), 0);
    assert!(kernel.mutex_unlock(mutex, true, 0).is_ok());
    assert_eq!(kernel.sched.tasks[2].state, State::Blocked);
    assert_eq!(kernel.mutex_destroy(mutex), Err(DriverError::InvalidContext));
    assert!(kernel.mutex_unlock(mutex, true, 0).is_ok());
    assert_eq!(kernel.sched.tasks[0].priority, 31);
    assert_eq!(kernel.mutex_unlock(mutex, true, 0), Err(DriverError::InvalidContext));
    assert_eq!(yield_to_other(&mut kernel), 2);
    assert_eq!(kernel.finish_mutex_wait(), WaitOutcome::Acquired);
    assert!(kernel.mutex_unlock(mutex, true, 0).is_ok());
    assert_eq!(kernel.mutex_destroy(mutex), Ok(0x2000));
    assert_eq!(kernel.mutex_destroy(mutex), Err(DriverError::InvalidHandle));
    assert_eq!(
        kernel.mutex_lock(mutex, WaitTimeout::Forever, true, 0),
        Err(DriverError::InvalidHandle)
    );
}

#[test]
fn a_circle_of_mutex_owners_is_refused() {
    let mut kernel = cooperative();
    let first = mutex(&mut kernel);
    let second = mutex(&mut kernel);
    spawn(&mut kernel, 4, 0x10000);
    assert!(kernel.mutex_lock(first, WaitTimeout::Forever, true, 0).is_ok());
    yield_to_other(&mut kernel);
    assert!(kernel.mutex_lock(second, WaitTimeout::Forever, true, 0).is_ok());
    assert_eq!(
        kernel.mutex_lock(first, WaitTimeout::Forever, true, 0),
        Ok(WaitStep::Blocked(2))
    );
    assert_eq!(leave(&mut kernel, 2, 0), 0);
    assert_eq!(
        kernel.mutex_lock(second, WaitTimeout::Forever, true, 0),
        Err(DriverError::InvalidContext)
    );
    assert_eq!(kernel.sched.tasks[0].state, State::Running);
    assert_eq!(kernel.sched.tasks[0].waiting_mutex, 0);
}

#[test]
fn objects_are_bounded() {
    let mut kernel = cooperative();
    let memory = Script::new(&[0x9000; 34]);
    let outcome = kernel.semaphore_create(&mut memory.blocks(), u32::MAX);
    assert_eq!(outcome.result, Err(DriverError::Runtime));
    assert_eq!(outcome.release, 0);
    assert!(memory.asked().is_empty());
    for _ in 0..16 {
        assert!(kernel.semaphore_create(&mut memory.blocks(), 0).result.is_ok());
        assert!(kernel.mutex_create(&mut memory.blocks()).result.is_ok());
    }
    let outcome = kernel.semaphore_create(&mut memory.blocks(), 0);
    assert_eq!(outcome.result, Err(DriverError::ResourceExhausted));
    assert_eq!(outcome.release, 0x9000);
    let outcome = kernel.mutex_create(&mut memory.blocks());
    assert_eq!(outcome.result, Err(DriverError::ResourceExhausted));
    assert_eq!(outcome.release, 0x9000);
    assert_eq!(memory.asked().len(), 34);
}

#[test]
fn objects_need_memory() {
    let mut kernel = cooperative();
    let memory = Script::new(&[]);
    let outcome = kernel.semaphore_create(&mut memory.blocks(), 0);
    assert_eq!(outcome.result, Err(DriverError::ResourceExhausted));
    assert_eq!(outcome.release, 0);
    let outcome = kernel.mutex_create(&mut memory.blocks());
    assert_eq!(outcome.result, Err(DriverError::ResourceExhausted));
    assert_eq!(outcome.release, 0);
    assert_eq!(
        memory.asked(),
        vec![std::mem::size_of::<SemState>(), std::mem::size_of::<MutexState>()]
    );
}

#[test]
fn admitted_slots_keep_their_stacks_and_refused_ones_give_them_back() {
    let mut kernel = cooperative();
    let required = TaskResourceRequirements::new(usize_of(8), usize_of(4096)).unwrap();
    let stacks: Vec<usize> = (1..=8).map(|i| i * 0x1000).collect();
    let memory = Script::new(&stacks);
    let outcome = kernel.reserve_task_resources(&mut memory.blocks(), required);
    let token = outcome.result.unwrap();
    assert!(outcome.release.is_empty());
    assert_eq!(memory.asked(), vec![4096; 8]);
    let memory = Script::new(&stacks);
    let outcome = kernel.reserve_task_resources(&mut memory.blocks(), required);
    assert_eq!(
        outcome.result,
        Err(TaskAdmissionError::InsufficientTaskSlots { required: 8, available: 7 })
    );
    assert_eq!(outcome.release, stacks);
    let memory = Script::new(&stacks[..3]);
    let outcome = kernel.reserve_task_resources(&mut memory.blocks(), required);
    assert_eq!(
        outcome.result,
        Err(TaskAdmissionError::InsufficientTaskStackMemory {
            required: 8 * 4096,
            available: 3 * 4096,
        })
    );
    assert_eq!(outcome.release, &stacks[..3]);
    assert_eq!(memory.asked(), vec![4096; 4]);
    let released = kernel.release_task_reservation(&token).unwrap();
    assert_eq!(&released.stacks[..released.count], &stacks[..]);
}

#[test]
fn a_plan_is_admitted_as_a_whole_or_not_at_all() {
    let mut kernel = cooperative();
    let group = |owner: u32, slots: usize, bytes: usize| {
        TaskResourceGroupRequirements::new(
            TaskResourceOwner::new(u32_of(owner)),
            TaskResourceRequirements::new(usize_of(slots), usize_of(bytes)).unwrap(),
        )
    };
    let groups = [group(1, 2, 4096), group(2, 1, 8192)];
    let plan = TaskResourcePlan::new(&groups).unwrap();
    let memory = Script::new(&[0x1000, 0x2000, 0x3000]);
    let outcome = kernel.reserve_task_resource_plan(&mut memory.blocks(), plan);
    let mut batch = outcome.result.unwrap();
    assert_eq!(batch.len(), 2);
    assert!(outcome.release.is_empty());
    assert_eq!(memory.asked(), vec![4096, 4096, 8192]);
    assert_eq!(diagnostics(&kernel).dynamic_reserved, 3);
    let first = kernel.release_task_reservation(&batch.take(0).unwrap()).unwrap();
    assert_eq!(&first.stacks[..first.count], &[0x1000, 0x2000]);
    let second = kernel.release_task_reservation(&batch.take(1).unwrap()).unwrap();
    assert_eq!(&second.stacks[..second.count], &[0x3000]);

    let memory = Script::new(&[0x1000, 0x2000]);
    let outcome = kernel.reserve_task_resource_plan(&mut memory.blocks(), plan);
    assert_eq!(
        outcome.result.err(),
        Some(PlanRefusal::Refused(TaskAdmissionError::InsufficientTaskGroupStackMemory {
            owner: TaskResourceOwner::new(u32_of(2)),
            required: 8192,
            available: 0,
            largest_contiguous: 7 * 1024,
        }))
    );
    assert_eq!(outcome.release, vec![0x1000, 0x2000]);
    assert_eq!(memory.probes.get(), 1);
    assert_eq!(diagnostics(&kernel).dynamic_reserved, 0);

    let groups = [group(1, 10, 4096), group(2, 6, 8192)];
    let plan = TaskResourcePlan::new(&groups).unwrap();
    let stacks: Vec<usize> = (1..=16).map(|i| i * 0x1000).collect();
    let memory = Script::new(&stacks);
    let outcome = kernel.reserve_task_resource_plan(&mut memory.blocks(), plan);
    assert_eq!(
        outcome.result.err(),
        Some(PlanRefusal::Refused(TaskAdmissionError::InsufficientTaskGroupSlots {
            owner: TaskResourceOwner::new(u32_of(2)),
            required: 6,
            available: 5,
        }))
    );
    assert_eq!(outcome.release, stacks);
    assert_eq!(memory.probes.get(), 0);
    assert_eq!(diagnostics(&kernel).dynamic_reserved, 0);
}

#[test]
fn a_group_larger_than_the_table_runs_out_of_memory_or_overflows() {
    let mut kernel = cooperative();
    let groups = [TaskResourceGroupRequirements::new(
        TaskResourceOwner::new(u32_of(1)),
        TaskResourceRequirements::new(usize_of(17), usize_of(64)).unwrap(),
    )];
    let plan = TaskResourcePlan::new(&groups).unwrap();
    let stacks: Vec<usize> = (1..=16).map(|i| i * 0x1000).collect();
    let memory = Script::new(&stacks[..15]);
    let outcome = kernel.reserve_task_resource_plan(&mut memory.blocks(), plan);
    assert_eq!(
        outcome.result.err(),
        Some(PlanRefusal::Refused(TaskAdmissionError::InsufficientTaskGroupStackMemory {
            owner: TaskResourceOwner::new(u32_of(1)),
            required: 17 * 64,
            available: 15 * 64,
            largest_contiguous: 7 * 1024,
        }))
    );
    assert_eq!(outcome.release, &stacks[..15]);
    let memory = Script::new(&stacks);
    let outcome = kernel.reserve_task_resource_plan(&mut memory.blocks(), plan);
    assert_eq!(outcome.result.err(), Some(PlanRefusal::Overfull));
    assert_eq!(outcome.release, stacks);
    assert_eq!(memory.asked().len(), 16);
}

#[test]
fn a_refused_start_can_be_tried_again() {
    let mut kernel = Kernel::new();
    let config = PortedConfig::default();
    let refused = start_with_port(&mut kernel, config, resources(), port(), boot(), || {
        Err(DriverError::InvalidContext)
    });
    assert!(matches!(refused, Err(StartError::Driver(DriverError::InvalidContext))));
    assert!(kernel.start.is_none());
    assert!(start_with_port(&mut kernel, config, resources(), port(), boot(), || Ok(())).is_ok());
}

#[test]
fn a_new_policy_needs_a_live_task() {
    let mut kernel = Kernel::new();
    let config = PortedConfig::default();
    let handle =
        match start_with_port(&mut kernel, config, resources(), port(), boot(), || Ok(())) {
            Ok(handle) => handle,
            Err(error) => panic!("{error:?}"),
        };
    let task = spawn(&mut kernel, 4, 0x10000);
    let policy = RunPolicy::Preemptive { time_slice: u32_of(3) };
    assert_eq!(handle.set_task_run_policy(&mut kernel, task, policy, 0), Ok(()));
    assert_eq!(kernel.sched.tasks[2].run_policy, policy);
    let nobody = TaskId::from_raw(task.into_raw() + (1 << 8));
    assert_eq!(
        handle.set_task_run_policy(&mut kernel, nobody, policy, 0),
        Err(DriverError::InvalidHandle)
    );
}

#[test]
fn diagnostics_show_every_slot() {
    let mut kernel = cooperative();
    spawn(&mut kernel, 4, 0x10000);
    let d = diagnostics(&kernel);
    assert_eq!(d.current_task, 0);
    assert_eq!(d.ready_tasks, 2);
    assert_eq!(d.dynamic_used, 1);
    assert_eq!(d.dynamic_free, 14);
    let mut few = [TaskDiagnostic::default(); 3];
    assert_eq!(task_diagnostics(&kernel, &mut few, 0), 3);
    assert_eq!(few[0].state, TaskState::Running);
    assert_eq!(few[2].state, TaskState::Ready);
    assert_eq!(few[2].entry, 0x300);
    assert_eq!(few[2].generation, 1);
    assert_eq!(few[2].stack_size, MINIMUM_STACK);
}

#[test]
fn the_idle_thread_cannot_be_reconfigured() {
    let mut kernel = Kernel::new();
    let config = PortedConfig::default();
    let handle =
        match start_with_port(&mut kernel, config, resources(), port(), boot(), || Ok(())) {
            Ok(handle) => handle,
            Err(error) => panic!("{error:?}"),
        };
    let idle = TaskId::from_raw((1 << 8) | IDLE_SLOT as u32);
    assert_eq!(kernel.set_task_priority(idle, 3), Err(DriverError::InvalidHandle));
    let policy = RunPolicy::Preemptive { time_slice: u32_of(3) };
    assert_eq!(
        handle.set_task_run_policy(&mut kernel, idle, policy, 0),
        Err(DriverError::InvalidHandle)
    );
    assert_eq!(kernel.sched.tasks[IDLE_SLOT].priority, 31);
    assert_eq!(kernel.sched.tasks[IDLE_SLOT].run_policy, RunPolicy::Cooperative);
    assert_eq!(kernel.sched.ready_pop_or_idle(), IDLE_SLOT);
}
