//! Generation-bearing resource handles.
use hisi_rtos::error::DriverError;
use hisi_rtos::nonzero::NonZeroUsize;
use hisi_rtos::resource::{ResourceKind, ResourceTable};


#[test]
fn duplicate_and_stale_handles_fail_before_pointer_resolution() {
    let mut table = ResourceTable::<2>::new();
    let first_pointer = NonZeroUsize::new(0x1000).unwrap();
    let first = table
        .insert(first_pointer, ResourceKind::Semaphore)
        .unwrap();
    assert_eq!(
        table.remove(first, ResourceKind::Semaphore),
        Ok(first_pointer)
    );
    assert_eq!(
        table.remove(first, ResourceKind::Semaphore),
        Err(DriverError::InvalidHandle)
    );

    let replacement_pointer = NonZeroUsize::new(0x2000).unwrap();
    let replacement = table
        .insert(replacement_pointer, ResourceKind::Semaphore)
        .unwrap();
    assert_ne!(first, replacement);
    assert_eq!(
        table.resolve(first, ResourceKind::Semaphore),
        Err(DriverError::InvalidHandle)
    );
    assert_eq!(
        table.resolve(replacement, ResourceKind::Semaphore),
        Ok(replacement_pointer)
    );
}

#[test]
fn handle_kind_is_part_of_the_identity() {
    let mut table = ResourceTable::<1>::new();
    let handle = table
        .insert(NonZeroUsize::new(0x1000).unwrap(), ResourceKind::Mutex)
        .unwrap();
    assert_eq!(
        table.resolve(handle, ResourceKind::Semaphore),
        Err(DriverError::InvalidHandle)
    );
}
