//! Execution budgets.
use hisi_rtos::nonzero::NonZeroU32;
use hisi_rtos::scheduling::{BudgetExpiry, BudgetSpec, BudgetState, RunPolicy};


fn budget(capacity: u32, period: u32) -> BudgetSpec {
    BudgetSpec::try_new(
        NonZeroU32::new(capacity).unwrap(),
        NonZeroU32::new(period).unwrap(),
    )
    .unwrap()
}

#[test]
fn rejects_capacity_larger_than_period() {
    assert!(
        BudgetSpec::try_new(NonZeroU32::new(11).unwrap(), NonZeroU32::new(10).unwrap())
            .is_none()
    );
}

#[test]
fn switch_out_preserves_unused_budget() {
    let mut state = BudgetState::for_policy(RunPolicy::Budgeted(budget(5, 20)), 100);
    state.on_dispatch(102);
    state.on_switch_out(104);
    assert_eq!(state.remaining(), 3);
    assert_eq!(state.replenishes_at(), 120);
}

#[test]
fn exhausted_budget_throttles_until_phase_aligned_replenishment() {
    let mut state = BudgetState::for_policy(RunPolicy::Budgeted(budget(5, 20)), 100);
    state.on_dispatch(100);
    assert_eq!(state.on_timer(105, false), BudgetExpiry::ThrottleNow);
    assert_eq!(state.remaining(), 0);
    assert!(!state.replenish_if_due(119));
    assert!(state.replenish_if_due(120));
    assert_eq!(state.remaining(), 5);
    assert_eq!(state.replenishes_at(), 140);
}

#[test]
fn scheduler_lock_cannot_erase_an_exhaustion_by_crossing_periods() {
    let mut state = BudgetState::for_policy(RunPolicy::Budgeted(budget(5, 20)), 100);
    state.on_dispatch(100);
    assert_eq!(
        state.on_timer(105, true),
        BudgetExpiry::DeferredBySchedulerLock
    );
    assert!(!state.replenish_if_due(145));
    assert_eq!(state.throttle_after_lock_overrun(145), Some(160));
    assert_eq!(state.remaining(), 0);
    assert!(!state.replenish_if_due(159));
    assert!(state.replenish_if_due(160));
}

#[test]
fn long_inactivity_advances_phase_without_looping_each_period() {
    let mut state = BudgetState::for_policy(RunPolicy::Budgeted(budget(5, 20)), 100);
    assert!(state.replenish_if_due(1_000));
    assert_eq!(state.remaining(), 5);
    assert_eq!(state.replenishes_at(), 1_020);
}
