//! Concrete instances of the scheduler's laws.
use hisi_rtos::admission::{
    TaskBudget, TaskResourceGroupRequirements, TaskResourcePlan, TaskResourceRequirements,
};
use hisi_rtos::config::{NIL, TASK_SLOT_COUNT};
use hisi_rtos::context::{
    initialize_irq_frame, TaskContext, INITIAL_MSTATUS, TASK_CONTEXT_BYTES, TASK_CONTEXT_WORDS,
};
use hisi_rtos::error::{DriverError, TaskId, TaskResourceOwner, WaitTimeout};
use hisi_rtos::identity::{decode_task_id, encode_task_id};
use hisi_rtos::metrics::TaskMetrics;
use hisi_rtos::nonzero::{NonZeroU32, NonZeroUsize};
use hisi_rtos::reservation::ReservationTable;
use hisi_rtos::resource::{ResourceKind, ResourceTable};
use hisi_rtos::scheduler::Sched;
use hisi_rtos::scheduling::{BudgetExpiry, BudgetSpec, BudgetState, RunPolicy};
use hisi_rtos::task::State;

fn u32_of(value: u32) -> NonZeroU32 {
    NonZeroU32::new(value).unwrap()
}

fn usize_of(value: usize) -> NonZeroUsize {
    NonZeroUsize::new(value).unwrap()
}

#[test]
fn zero_is_refused() {
    assert!(NonZeroU32::new(0).is_none());
    assert!(NonZeroUsize::new(0).is_none());
    assert_eq!(u32_of(9).get(), 9);
    assert_eq!(usize_of(9).get(), 9);
}

#[test]
fn a_context_fills_its_frame() {
    assert_eq!(std::mem::size_of::<TaskContext>(), TASK_CONTEXT_BYTES);
    assert_eq!(TASK_CONTEXT_WORDS * 4, TASK_CONTEXT_BYTES);
    let (frame, context) = initialize_irq_frame(0x8000, 0x100, 7, 0x8000, 3);
    assert_eq!(frame, 0x8000 - 272);
    assert_eq!(context.mstatus, INITIAL_MSTATUS);
    assert_eq!(context.mepc, 0x100);
    assert_eq!(context.tp, 7);
    assert_eq!(context.sp, 0x8000);
    assert_eq!(context.fcsr, 3);
    assert!(context.s.iter().chain(&context.caller_gpr).chain(&context.f).all(|word| *word == 0));
}

#[test]
fn identities_round_trip_and_differ() {
    for slot in 0..TASK_SLOT_COUNT {
        for generation in [1, 2, u16::MAX] {
            let task = encode_task_id(slot, generation).unwrap();
            assert_eq!(decode_task_id(task), Ok((slot, generation)));
            assert_ne!(encode_task_id((slot + 1) % TASK_SLOT_COUNT, generation), Ok(task));
        }
    }
    assert_eq!(decode_task_id(TaskId::from_raw(0)), Err(DriverError::InvalidHandle));
    assert_eq!(decode_task_id(TaskId::from_raw(3)), Err(DriverError::InvalidHandle));
    assert_eq!(decode_task_id(TaskId::from_raw((1 << 8) | 17)), Err(DriverError::InvalidHandle));
    assert_eq!(decode_task_id(TaskId::from_raw(1 << 24)), Err(DriverError::InvalidHandle));
}

#[test]
fn timeouts_have_a_millisecond_encoding() {
    assert_eq!(WaitTimeout::NoWait.into_ms(), 0);
    assert_eq!(WaitTimeout::Milliseconds(u32_of(5)).into_ms(), 5);
    assert_eq!(WaitTimeout::Forever.into_ms(), u32::MAX);
}

#[test]
fn a_released_reservation_takes_back_its_promise() {
    let mut table = ReservationTable::new();
    let kept = table.reserve(usize_of(2), 15).unwrap();
    let given_up = table.reserve(usize_of(3), 13).unwrap();
    assert_eq!(table.total_remaining(), 5);
    assert!(table.release(&given_up).is_ok());
    assert_eq!(table.total_remaining(), 2);
    assert_eq!(table.release(&given_up), Err(DriverError::InvalidHandle));
    let reused = table.reserve(usize_of(1), 13).unwrap();
    assert_ne!(reused.into_raw(), given_up.into_raw());
    assert_eq!(table.ensure_consumable(&given_up), Err(DriverError::InvalidHandle));
    assert_eq!(table.ensure_consumable(&kept), Ok(()));
    assert_eq!(table.consume(&reused), Ok(None));
    assert_eq!(table.ensure_consumable(&reused), Err(DriverError::NoTaskSlots));
}

#[test]
fn a_plan_needs_distinct_owners_and_totals_that_fit() {
    let group = |owner: u32, slots: usize, bytes: usize| {
        TaskResourceGroupRequirements::new(
            TaskResourceOwner::new(u32_of(owner)),
            TaskResourceRequirements::new(usize_of(slots), usize_of(bytes)).unwrap(),
        )
    };
    assert!(TaskResourcePlan::new(&[]).is_none());
    assert!(TaskResourcePlan::new(&[group(1, 1, 16), group(1, 1, 16)]).is_none());
    assert!(TaskResourcePlan::new(&[group(1, 1, usize::MAX), group(2, 1, 1)]).is_none());
    assert!(TaskResourceRequirements::new(usize_of(2), usize_of(usize::MAX)).is_none());
    let groups: Vec<_> = (1..=9).map(|owner| group(owner, 1, 16)).collect();
    assert!(TaskResourcePlan::new(&groups).is_none());
    let plan = TaskResourcePlan::new(&groups[..8]).unwrap();
    assert_eq!(plan.total_task_slots(), 8);
    assert_eq!(plan.total_stack_bytes(), 128);
    assert!(TaskBudget::try_new(u32_of(3), u32_of(2)).is_none());
}

#[test]
fn handles_are_bounded_and_outlive_nothing() {
    let mut table = ResourceTable::<1>::new();
    let first = table.insert(usize_of(5), ResourceKind::Semaphore).unwrap();
    assert_eq!(
        table.insert(usize_of(6), ResourceKind::Semaphore),
        Err(DriverError::ResourceExhausted)
    );
    assert_eq!(table.remove(first, ResourceKind::Mutex), Err(DriverError::InvalidHandle));
    assert_eq!(table.remove(first, ResourceKind::Semaphore), Ok(usize_of(5)));
    let second = table.insert(usize_of(6), ResourceKind::Semaphore).unwrap();
    assert_ne!(first, second);
    assert_eq!(table.resolve(first, ResourceKind::Semaphore), Err(DriverError::InvalidHandle));
}

#[test]
fn a_quota_is_spent_exactly() {
    let spec = BudgetSpec::try_new(u32_of(5), u32_of(20)).unwrap();
    assert_eq!(spec.capacity().get(), 5);
    assert_eq!(spec.replenishment_period().get(), 20);
    let mut state = BudgetState::for_policy(RunPolicy::Budgeted(spec), 0);
    state.on_dispatch(1);
    assert_eq!(state.exhaustion_deadline(), Some(6));
    assert_eq!(state.on_timer(5, false), BudgetExpiry::StillAvailable);
    assert_eq!(state.remaining(), 1);
    assert_eq!(state.on_timer(6, false), BudgetExpiry::ThrottleNow);
    let mut free = BudgetState::for_policy(RunPolicy::Cooperative, 0);
    free.on_dispatch(1);
    assert_eq!(free.exhaustion_deadline(), None);
    assert_eq!(free.on_timer(5, false), BudgetExpiry::NotBudgeted);
    assert_eq!(free.throttle_after_lock_overrun(6), None);
}

#[test]
fn a_snapshot_counts_open_intervals() {
    let mut metrics = TaskMetrics::new();
    metrics.on_ready(10);
    metrics.on_dispatch(14);
    let snapshot = metrics.snapshot(None, 20);
    assert_eq!(snapshot.cpu_time_ms, 6);
    assert_eq!(snapshot.max_ready_latency_ms, 4);
    assert_eq!(metrics.cpu_time_ms, 0);
    metrics.on_switch_out(21);
    assert_eq!(metrics.cpu_time_ms, 7);
    assert_eq!(metrics.snapshot(Some(15), 21).max_scheduler_lock_ms, 6);
}

#[test]
fn removing_keeps_the_order_of_the_others() {
    let mut scheduler = Sched::new();
    for slot in 2..7 {
        scheduler.tasks[slot].state = State::Ready;
        scheduler.tasks[slot].priority = 4;
        scheduler.ready_push(slot);
    }
    assert!(scheduler.ready_remove(4));
    assert!(!scheduler.ready_remove(4));
    assert!(scheduler.ready_remove(2));
    assert!(scheduler.ready_remove(6));
    assert_eq!(scheduler.ready_pop(), 3);
    assert_eq!(scheduler.ready_pop(), 5);
    assert_eq!(scheduler.ready_pop(), NIL);
}

#[test]
fn lowering_a_base_priority_keeps_the_donation() {
    let mut scheduler = Sched::new();
    scheduler.tasks[2].state = State::Ready;
    scheduler.tasks[2].base_priority = 20;
    scheduler.tasks[2].priority = 20;
    scheduler.ready_push(2);
    scheduler.add_inheritance(2, 5);
    assert_eq!(scheduler.tasks[2].priority, 5);
    scheduler.set_base_priority(2, 9);
    assert_eq!(scheduler.tasks[2].priority, 5);
    scheduler.set_base_priority(2, 3);
    assert_eq!(scheduler.tasks[2].priority, 3);
    scheduler.remove_inheritance(2, 5);
    assert_eq!(scheduler.tasks[2].priority, 3);
    assert_eq!(scheduler.diagnostics.priority_inheritances, 1);
}

#[test]
fn whoever_becomes_ready_can_be_taken_again() {
    let mut scheduler = Sched::new();
    scheduler.tasks[0].state = State::Running;
    for (slot, wake_at) in [(2, 10), (3, 20), (4, 30)] {
        scheduler.tasks[slot].state = State::Sleeping;
        scheduler.tasks[slot].wake_at = wake_at;
        scheduler.tasks[slot].priority = 5;
        scheduler.tasks[slot].base_priority = 5;
    }
    scheduler.wake_sleepers(20);
    assert_eq!(scheduler.tasks[2].state, State::Ready);
    assert_eq!(scheduler.tasks[3].state, State::Ready);
    assert_eq!(scheduler.tasks[4].state, State::Sleeping);
    scheduler.set_base_priority(3, 1);
    let next = scheduler.take_yield_target(0, 21).unwrap();
    assert_eq!(next, 3);
    assert_eq!(scheduler.tasks[0].state, State::Ready);
    let mut left = Vec::new();
    loop {
        let slot = scheduler.ready_pop();
        if slot == NIL {
            break;
        }
        left.push(slot);
    }
    left.sort();
    assert_eq!(left, vec![0, 2]);
}

#[test]
fn charges_add_up() {
    let spec = BudgetSpec::try_new(u32_of(10), u32_of(20)).unwrap();
    let mut once = BudgetState::for_policy(RunPolicy::Budgeted(spec), 0);
    once.on_dispatch(1);
    let mut twice = once;
    twice.charge_until(4);
    assert_eq!(twice.remaining(), 7);
    twice.charge_until(9);
    once.charge_until(9);
    assert_eq!(once, twice);
    assert_eq!(once.remaining(), 2);
    once.charge_until(30);
    assert_eq!(once.remaining(), 0);
}

#[test]
fn a_released_token_stays_dead_while_its_entry_is_used_again() {
    let mut table = ReservationTable::new();
    let dead = table.reserve(usize_of(1), 15).unwrap();
    assert!(table.release(&dead).is_ok());
    for _ in 0..65534 {
        let token = table.reserve(usize_of(1), 15).unwrap();
        assert_ne!(token.into_raw(), dead.into_raw());
        assert_eq!(table.ensure_consumable(&dead), Err(DriverError::InvalidHandle));
        assert_eq!(table.stack_size(&dead), Err(DriverError::InvalidHandle));
        assert!(table.release(&token).is_ok());
    }
    let token = table.reserve(usize_of(1), 15).unwrap();
    assert_eq!(token.into_raw(), dead.into_raw());
}

#[test]
fn reserved_stacks_are_consumed_or_come_back() {
    let mut table = ReservationTable::new();
    let mut stacks = [0usize; 15];
    stacks[..3].copy_from_slice(&[0x1000, 0x2000, 0x3000]);
    let token = table.reserve_with_stacks(usize_of(3), usize_of(512), 15, stacks).unwrap();
    assert_eq!(table.consume(&token).unwrap().unwrap().pointer, 0x1000);
    assert_eq!(table.total_remaining(), 2);
    let released = table.release(&token).unwrap();
    assert_eq!(&released.stacks[..released.count], &[0x2000, 0x3000]);
    assert_eq!(table.total_remaining(), 0);
    assert!(table.release(&token).is_err());
}

#[test]
fn a_refresh_passes_a_change_on_along_the_owners() {
    let mut scheduler = Sched::new();
    for (slot, priority) in [(2, 9), (3, 12), (4, 20)] {
        scheduler.tasks[slot].state = State::Ready;
        scheduler.tasks[slot].base_priority = priority;
        scheduler.tasks[slot].priority = priority;
    }
    scheduler.current = 4;
    scheduler.tasks[4].state = State::Running;
    assert!(scheduler.mutex_lock(1, 5, 0, true).is_ok());
    scheduler.current = 3;
    scheduler.tasks[3].state = State::Running;
    scheduler.tasks[4].state = State::Ready;
    scheduler.ready_push(4);
    assert!(scheduler.mutex_lock(0, 5, 0, true).is_ok());
    assert!(scheduler.mutex_lock(1, 5, 0, true).is_ok());
    assert_eq!(scheduler.tasks[4].priority, 12);
    scheduler.add_inheritance(3, 9);
    assert_eq!(scheduler.tasks[3].priority, 9);
    assert_eq!(scheduler.tasks[4].priority, 9);
    assert_eq!(scheduler.tasks[4].inherited_waiters[12], 0);
    assert_eq!(scheduler.tasks[4].inherited_waiters[9], 1);
}
