//! Caller-owned stack storage.
use hisi_rtos::config::DYNAMIC_TASK_CAPACITY;
use hisi_rtos::storage::{SchedulerStackArena, SchedulerStorage, StorageError};

#[test]
fn unsupported_capacity_fails_before_claiming_the_arena() {
    let mut storage = SchedulerStorage::<0>::new();
    let arena = SchedulerStackArena::<4096>::new();
    let mut claimed = false;
    assert!(matches!(
        storage.install(|_| {
            claimed = !arena.bytes.is_empty();
            claimed
        }),
        Err(StorageError::UnsupportedCapacity {
            requested: 0,
            maximum: DYNAMIC_TASK_CAPACITY,
        })
    ));
    assert!(!claimed);
}

#[test]
fn caller_owned_arena_is_installed_once_and_reports_usage() {
    let mut storage = SchedulerStorage::<3>::new();
    let arena = SchedulerStackArena::<4096>::new();
    let installed = storage.install(|_| arena.bytes.len() == 4096).ok().unwrap();

    assert_eq!(installed.dynamic_capacity(), 3);
    assert_eq!(installed.metrics(&storage), storage.metrics());
    let arena = SchedulerStackArena::<4096>::new();
    assert!(matches!(
        storage.install(|_| arena.bytes.len() == 4096),
        Err(StorageError::AlreadyInstalled)
    ));
}

#[test]
fn storage_is_installed_once() {
    let mut storage = SchedulerStorage::<3>::default();
    let arena = SchedulerStackArena::<4096>::default();
    assert!(arena.bytes.iter().all(|byte| *byte == 0));
    assert!(matches!(storage.install(|_| false), Err(StorageError::InvalidArena)));
    let installed = match storage.install(|heap| !heap.is_initialized()) {
        Ok(installed) => installed,
        Err(error) => panic!("{error:?}"),
    };
    assert_eq!(installed.dynamic_capacity(), 3);
    assert!(matches!(storage.install(|_| true), Err(StorageError::AlreadyInstalled)));
    assert_eq!(installed.metrics(&storage), storage.metrics());
}

#[test]
fn too_large_a_capacity_is_refused() {
    assert!(matches!(
        SchedulerStorage::<16>::new().install(|_| true),
        Err(StorageError::UnsupportedCapacity { requested: 16, maximum: 15 })
    ));
}

#[test]
fn a_heap_without_an_arena_allocates_nothing_and_counts_it() {
    let storage = SchedulerStorage::<3>::new();
    assert_eq!(storage.allocate(64), 0);
    assert_eq!(storage.largest_allocatable_stack(), 0);
    let metrics = storage.metrics();
    assert!(!metrics.initialized);
    assert_eq!(metrics.arena_bytes, 0);
    assert_eq!(metrics.used_bytes, 0);
    assert_eq!(metrics.free_bytes, 0);
    assert_eq!(metrics.peak_used_bytes, 0);
    assert_eq!(metrics.live_allocations, 0);
    assert_eq!(metrics.peak_live_allocations, 0);
    assert_eq!(metrics.allocation_attempts, 1);
    assert_eq!(metrics.allocation_failures, 1);
}

#[test]
fn the_heap_that_is_lent_out_is_the_one_that_is_measured() {
    let mut storage = SchedulerStorage::<3>::new();
    assert!(!storage.heap_mut().is_initialized());
    assert!(storage.heap_mut().allocate_zeroed(8, 3).is_null());
    assert_eq!(storage.allocate(usize::MAX), 0);
    assert_eq!(storage.allocate(0), 0);
    assert_eq!(storage.metrics().allocation_attempts, 3);
    assert_eq!(storage.metrics().allocation_failures, 3);
}
