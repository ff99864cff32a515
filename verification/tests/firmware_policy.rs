//! Scheduling under one firmware-wide policy.
use hisi_rtos::config::{SchedulingPolicy, NIL};
use hisi_rtos::error::DriverError;
use hisi_rtos::nonzero::NonZeroU32;
use hisi_rtos::scheduler::Sched;
use hisi_rtos::task::State;
use hisi_rtos::timing::earliest_deadline;

fn cooperative_scheduler() -> Sched {
    Sched::with_policy(SchedulingPolicy::Cooperative, None)
}

fn priority_scheduler() -> Sched {
    Sched::with_policy(SchedulingPolicy::Priority, None)
}

fn ready_task(scheduler: &mut Sched, slot: usize, priority: u8) {
    scheduler.tasks[slot].state = State::Ready;
    scheduler.tasks[slot].priority = priority;
    scheduler.ready_push(slot);
}

#[test]
fn lib_ready_queue_prefers_lower_priority_number_and_keeps_fifo() {
    let mut scheduler = priority_scheduler();
    ready_task(&mut scheduler, 1, 8);
    ready_task(&mut scheduler, 2, 4);
    ready_task(&mut scheduler, 3, 4);

    assert_eq!(scheduler.ready_pop(), 2);
    assert_eq!(scheduler.ready_pop(), 3);
    assert_eq!(scheduler.ready_pop(), 1);
    assert_eq!(scheduler.ready_pop(), NIL);
}

#[test]
fn lib_ready_task_can_move_between_priority_queues() {
    let mut scheduler = priority_scheduler();
    ready_task(&mut scheduler, 1, 8);
    ready_task(&mut scheduler, 2, 4);

    scheduler.ready_remove(1);
    scheduler.tasks[1].priority = 2;
    scheduler.ready_push(1);

    assert_eq!(scheduler.ready_pop(), 1);
    assert_eq!(scheduler.ready_pop(), 2);
}

#[test]
fn lib_cooperative_yield_hands_off_before_requeueing_higher_priority_task() {
    let mut scheduler = cooperative_scheduler();
    scheduler.current = 1;
    scheduler.tasks[1].state = State::Running;
    scheduler.tasks[1].priority = 2;
    ready_task(&mut scheduler, 2, 8);

    assert_eq!(scheduler.take_yield_target(1, 0), Some(2));
    assert_eq!(scheduler.ready_pop(), 1);
}

#[test]
fn cooperative_policy_keeps_fifo_across_task_priorities() {
    let mut scheduler = cooperative_scheduler();
    ready_task(&mut scheduler, 1, 8);
    ready_task(&mut scheduler, 2, 4);
    ready_task(&mut scheduler, 3, 2);

    assert_eq!(scheduler.ready_pop(), 1);
    assert_eq!(scheduler.ready_pop(), 2);
    assert_eq!(scheduler.ready_pop(), 3);
}

#[test]
fn lib_exited_stacks_are_retired_for_later_reclamation() {
    let mut scheduler = cooperative_scheduler();
    scheduler.retire_stack(0x1000);
    scheduler.retire_stack(0x2000);

    assert_eq!(scheduler.retired_count, 2);
    assert_eq!(&scheduler.retired_stacks[..2], &[0x1000, 0x2000]);
}

#[test]
fn lib_scheduler_lock_is_nested_and_rejects_unbalanced_unlock() {
    let mut scheduler = cooperative_scheduler();
    scheduler.tasks[0].state = State::Running;
    scheduler.lock_current(0).unwrap();
    scheduler.lock_current(0).unwrap();
    assert_eq!(scheduler.tasks[0].scheduler_lock_depth, 2);
    scheduler.unlock_current(0).unwrap();
    scheduler.unlock_current(0).unwrap();
    assert_eq!(scheduler.unlock_current(0), Err(DriverError::InvalidContext));
}

#[test]
fn lib_outermost_scheduler_unlock_releases_pending_higher_priority_task() {
    let mut scheduler = priority_scheduler();
    scheduler.tasks[0].state = State::Running;
    scheduler.tasks[0].priority = 10;
    ready_task(&mut scheduler, 1, 4);
    scheduler.lock_current(0).unwrap();
    scheduler.lock_current(0).unwrap();

    assert_eq!(
        scheduler.unlock_current_and_take_preemption(0).unwrap(),
        None
    );
    assert_eq!(
        scheduler.unlock_current_and_take_preemption(0).unwrap(),
        Some((0, 1))
    );
    assert!(matches!(scheduler.tasks[0].state, State::Ready));
}

#[test]
fn lib_irq_epilogue_preempts_only_after_outermost_interrupt_exit() {
    let mut scheduler = priority_scheduler();
    scheduler.started = true;
    scheduler.tasks[0].state = State::Running;
    scheduler.tasks[0].priority = 10;
    ready_task(&mut scheduler, 1, 4);

    assert_eq!(scheduler.take_irq_epilogue_target(1, 0), None);
    assert_eq!(scheduler.diagnostics.irq_preemptions, 0);
    assert_eq!(scheduler.take_irq_epilogue_target(0, 0), Some((0, 1)));
    assert_eq!(scheduler.diagnostics.irq_preemptions, 1);
}

#[test]
fn irq_epilogue_does_not_preempt_cooperative_or_stopped_scheduler() {
    let mut scheduler = cooperative_scheduler();
    scheduler.tasks[0].state = State::Running;
    scheduler.tasks[0].priority = 10;
    ready_task(&mut scheduler, 1, 4);

    assert_eq!(scheduler.take_irq_epilogue_target(0, 0), None);
    scheduler.started = true;
    assert_eq!(scheduler.take_irq_epilogue_target(0, 0), None);
    assert_eq!(scheduler.diagnostics.irq_preemptions, 0);
}

#[test]
fn lib_expired_time_slice_round_robins_equal_priority_tasks() {
    let mut scheduler = priority_scheduler();
    scheduler.started = true;
    scheduler.tasks[0].state = State::Running;
    scheduler.tasks[0].priority = 4;
    ready_task(&mut scheduler, 1, 4);

    assert_eq!(scheduler.take_irq_epilogue_target(0, 0), None);
    scheduler.time_slice_pending = true;
    assert_eq!(scheduler.take_irq_epilogue_target(0, 0), Some((0, 1)));
    assert_eq!(scheduler.diagnostics.time_slice_preemptions, 1);
    assert!(!scheduler.time_slice_pending);
}

#[test]
fn lib_scheduler_lock_preserves_expired_time_slice_until_unlock() {
    let mut scheduler = priority_scheduler();
    scheduler.started = true;
    scheduler.tasks[0].state = State::Running;
    scheduler.tasks[0].priority = 4;
    ready_task(&mut scheduler, 1, 4);
    scheduler.time_slice_pending = true;
    scheduler.lock_current(0).unwrap();

    assert_eq!(scheduler.take_irq_epilogue_target(0, 0), None);
    assert!(scheduler.time_slice_pending);
    assert_eq!(
        scheduler.unlock_current_and_take_preemption(0).unwrap(),
        Some((0, 1))
    );
    assert!(!scheduler.time_slice_pending);
}

#[test]
fn lib_earliest_deadline_ignores_forever_waiters() {
    let mut scheduler = cooperative_scheduler();
    scheduler.tasks[1].state = State::Blocked;
    scheduler.tasks[1].wake_at = 0;
    scheduler.tasks[2].state = State::Sleeping;
    scheduler.tasks[2].wake_at = 42;
    scheduler.tasks[3].state = State::Blocked;
    scheduler.tasks[3].wake_at = 17;

    assert_eq!(scheduler.earliest_wake_deadline(), Some(17));
}

#[test]
fn lib_shared_timer_uses_earliest_rtos_slice_or_embassy_deadline() {
    assert_eq!(earliest_deadline(Some(30), Some(20), None, None, Some(10)), Some(10));
    assert_eq!(earliest_deadline(Some(30), Some(20), None, None, None), Some(20));
    assert_eq!(earliest_deadline(Some(30), None, None, None, Some(40)), Some(30));
    assert_eq!(earliest_deadline(None, None, None, None, Some(40)), Some(40));
    assert_eq!(earliest_deadline(None, None, None, None, None), None);
}

#[test]
fn lib_unrelated_deadline_rearm_does_not_postpone_time_slice() {
    let slice = NonZeroU32::new(5);
    let mut scheduler = Sched::with_policy(SchedulingPolicy::Cooperative, slice);
    ready_task(&mut scheduler, 1, 4);

    assert_eq!(scheduler.next_time_slice_deadline(10), Some(15));
    assert_eq!(scheduler.next_time_slice_deadline(12), Some(15));

    scheduler.time_slice_deadline = 0;
    assert_eq!(scheduler.next_time_slice_deadline(15), Some(20));
    scheduler.ready_pop();
    assert_eq!(scheduler.next_time_slice_deadline(16), None);
}

#[test]
fn lib_forever_semaphore_wait_is_not_treated_as_an_expired_deadline() {
    let semaphore = 0;
    let mut scheduler = cooperative_scheduler();
    scheduler.tasks[1].state = State::Blocked;
    scheduler.tasks[1].waiting_sem = semaphore + 1;
    scheduler.tasks[1].wake_at = 0;
    scheduler.sems[semaphore].wait_head = 1;
    scheduler.sems[semaphore].wait_tail = 1;

    scheduler.wake_sleepers(1_000);

    assert!(matches!(scheduler.tasks[1].state, State::Blocked));
    assert_eq!(scheduler.sems[semaphore].wait_head, 1);
    assert_eq!(scheduler.diagnostics.semaphore_timeouts, 0);
}

#[test]
fn lib_timed_semaphore_wait_wakes_only_after_its_deadline() {
    let semaphore = 0;
    let mut scheduler = cooperative_scheduler();
    scheduler.tasks[1].state = State::Blocked;
    scheduler.tasks[1].waiting_sem = semaphore + 1;
    scheduler.tasks[1].wake_at = 10;
    scheduler.sems[semaphore].wait_head = 1;
    scheduler.sems[semaphore].wait_tail = 1;

    scheduler.wake_sleepers(9);
    assert!(matches!(scheduler.tasks[1].state, State::Blocked));
    scheduler.wake_sleepers(10);

    assert!(matches!(scheduler.tasks[1].state, State::Ready));
    assert_eq!(scheduler.ready_pop(), 1);
    assert_eq!(scheduler.diagnostics.semaphore_timeouts, 1);
}

#[test]
fn lib_duplicate_mutex_waiters_keep_owner_inherited_until_both_leave() {
    let mut scheduler = priority_scheduler();
    scheduler.tasks[0].state = State::Running;
    scheduler.tasks[0].base_priority = 20;
    scheduler.tasks[0].priority = 20;

    scheduler.add_inheritance(0, 2);
    scheduler.add_inheritance(0, 2);
    assert_eq!(scheduler.tasks[0].priority, 2);
    scheduler.remove_inheritance(0, 2);
    assert_eq!(scheduler.tasks[0].priority, 2);
    scheduler.remove_inheritance(0, 2);
    assert_eq!(scheduler.tasks[0].priority, 20);
}

#[test]
fn lib_chained_mutex_inheritance_propagates_effective_priority() {
    let mut scheduler = priority_scheduler();
    let upstream = 0;
    let downstream = 1;

    scheduler.tasks[0].state = State::Blocked;
    scheduler.tasks[0].base_priority = 20;
    scheduler.tasks[0].priority = 20;
    scheduler.tasks[0].waiting_mutex = upstream + 1;
    scheduler.tasks[1].state = State::Running;
    scheduler.tasks[1].base_priority = 30;
    scheduler.tasks[1].priority = 30;
    scheduler.mutexes[upstream].owner = 1;
    scheduler.mutexes[upstream].wait_head = 0;
    scheduler.mutexes[upstream].wait_tail = 0;
    scheduler.mutexes[downstream].owner = 0;
    scheduler.add_inheritance(1, 20);

    scheduler.add_inheritance(0, 2);
    assert_eq!(scheduler.tasks[0].priority, 2);
    assert_eq!(scheduler.tasks[1].priority, 2);

    scheduler.remove_inheritance(0, 2);
    assert_eq!(scheduler.tasks[0].priority, 20);
    assert_eq!(scheduler.tasks[1].priority, 20);
}

#[test]
fn lib_timed_out_mutex_waiter_restores_owner_priority() {
    let mut scheduler = priority_scheduler();
    let mutex = 0;
    scheduler.tasks[0].state = State::Running;
    scheduler.tasks[0].base_priority = 20;
    scheduler.tasks[0].priority = 20;
    scheduler.tasks[1].state = State::Blocked;
    scheduler.tasks[1].base_priority = 2;
    scheduler.tasks[1].priority = 2;
    scheduler.tasks[1].waiting_mutex = mutex + 1;
    scheduler.tasks[1].wake_at = 10;
    scheduler.mutexes[mutex].owner = 0;
    scheduler.mutexes[mutex].depth = 1;
    scheduler.mutexes[mutex].wait_head = 1;
    scheduler.mutexes[mutex].wait_tail = 1;
    scheduler.add_inheritance(0, 2);
    assert_eq!(scheduler.tasks[0].priority, 2);

    scheduler.wake_sleepers(10);
    assert_eq!(scheduler.tasks[0].priority, 20);
    assert_eq!(scheduler.tasks[1].state, State::Ready);
    assert_eq!(scheduler.tasks[1].waiting_mutex, 0);
    assert_eq!(scheduler.mutexes[mutex].wait_head, NIL);
}

#[test]
fn lib_mutex_handoff_transfers_remaining_inheritance_to_new_owner() {
    let mut scheduler = priority_scheduler();
    let mutex = 0;

    scheduler.tasks[0].state = State::Running;
    scheduler.tasks[0].base_priority = 20;
    scheduler.tasks[0].priority = 20;
    scheduler.tasks[1].state = State::Blocked;
    scheduler.tasks[1].base_priority = 2;
    scheduler.tasks[1].priority = 2;
    scheduler.tasks[1].waiting_mutex = mutex + 1;
    scheduler.tasks[2].state = State::Blocked;
    scheduler.tasks[2].base_priority = 5;
    scheduler.tasks[2].priority = 5;
    scheduler.tasks[2].waiting_mutex = mutex + 1;
    scheduler.mutexes[mutex].owner = 0;
    scheduler.mutexes[mutex].depth = 0;
    scheduler.enqueue_mutex_waiter(mutex, 1);
    scheduler.enqueue_mutex_waiter(mutex, 2);
    scheduler.add_inheritance(0, 2);
    scheduler.add_inheritance(0, 5);

    scheduler.release_mutex_locked(mutex, 0, 0);

    assert_eq!(scheduler.mutexes[mutex].owner, 1);
    assert_eq!(scheduler.mutexes[mutex].wait_head, 2);
    assert_eq!(scheduler.tasks[0].priority, 20);
    assert_eq!(scheduler.tasks[1].priority, 2);
    assert_eq!(scheduler.tasks[1].inherited_waiters[5], 1);
    assert_eq!(scheduler.tasks[1].state, State::Ready);
    assert!(scheduler.tasks[1].sem_granted);
    assert_eq!(scheduler.tasks[1].waiting_mutex, 0);
}

#[test]
fn lib_base_priority_change_preserves_and_then_restores_inheritance() {
    let mut scheduler = priority_scheduler();
    scheduler.tasks[0].state = State::Running;
    scheduler.tasks[0].base_priority = 20;
    scheduler.tasks[0].priority = 20;

    scheduler.add_inheritance(0, 2);
    scheduler.tasks[0].base_priority = 10;
    scheduler.refresh_inherited_priority(0, 0);
    assert_eq!(scheduler.tasks[0].priority, 2);

    scheduler.remove_inheritance(0, 2);
    assert_eq!(scheduler.tasks[0].priority, 10);
}
