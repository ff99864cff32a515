//! Requested execution policies.
use hisi_rtos::admission::{TaskBudget, TaskExecutionPolicy};
use hisi_rtos::error::DriverError;
use hisi_rtos::nonzero::NonZeroU32;
use hisi_rtos::scheduling::{BudgetSpec, RunPolicy};
use hisi_rtos::services::map_execution_policy;


#[test]
fn ported_budget_maps_without_post_spawn_mutation() {
    let capacity = NonZeroU32::new(10).unwrap();
    let period = NonZeroU32::new(20).unwrap();
    let policy = TaskExecutionPolicy::Budgeted(TaskBudget::try_new(capacity, period).unwrap());
    assert_eq!(
        map_execution_policy(policy, true),
        Ok(RunPolicy::Budgeted(
            BudgetSpec::try_new(capacity, period).unwrap()
        ))
    );
}

#[test]
fn portless_rejects_forced_execution_policies() {
    let one = NonZeroU32::new(1).unwrap();
    assert_eq!(
        map_execution_policy(
            TaskExecutionPolicy::Preemptive { time_slice_ms: one },
            false,
        ),
        Err(DriverError::IncompatibleExecutionProfile)
    );
    assert_eq!(
        map_execution_policy(
            TaskExecutionPolicy::Budgeted(TaskBudget::try_new(one, one).unwrap()),
            false,
        ),
        Err(DriverError::IncompatibleExecutionProfile)
    );
}
