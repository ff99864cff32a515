//! Embassy timers on the scheduler clock.
use hisi_rtos::alarm::{embassy_now_ticks, next_alarm, EmbassyTimers};
use std::sync::atomic::{AtomicUsize, Ordering};
use std::sync::Arc;
use std::task::{Wake, Waker};

struct Counter(AtomicUsize);

impl Wake for Counter {
    fn wake(self: Arc<Self>) {
        self.0.fetch_add(1, Ordering::Relaxed);
    }
}

fn waker() -> (Arc<Counter>, Waker) {
    let counter = Arc::new(Counter(AtomicUsize::new(0)));
    (counter.clone(), Waker::from(counter))
}

#[test]
fn ticks_are_microseconds() {
    assert_eq!(embassy_now_ticks(None), 0);
    assert_eq!(embassy_now_ticks(Some(7)), 7_000);
    assert_eq!(embassy_now_ticks(Some(u64::MAX)), u64::MAX);
}

#[test]
fn an_alarm_covers_its_timer() {
    assert_eq!(next_alarm(7, u64::MAX), None);
    assert_eq!(next_alarm(7, 7_001), Some(8));
    assert_eq!(next_alarm(7, 8_000), Some(8));
    assert_eq!(next_alarm(7, 8_001), Some(9));
    assert_eq!(next_alarm(7, 7_000), Some(8));
    assert_eq!(next_alarm(7, 10), Some(8));
}

#[test]
fn timers_wake_in_time_and_leave_the_queue() {
    let mut timers = EmbassyTimers::new();
    let (first, first_waker) = waker();
    let (second, second_waker) = waker();
    assert_eq!(timers.next_expiration_ms(0), None);
    assert!(timers.schedule_wake(5_000, &first_waker));
    assert!(timers.schedule_wake(9_500, &second_waker));
    // A later time for the same waker changes nothing; an earlier one does.
    assert!(!timers.schedule_wake(6_000, &first_waker));
    assert!(timers.schedule_wake(4_000, &first_waker));
    assert_eq!(timers.next_expiration_ms(0), Some(4));
    assert_eq!(first.0.load(Ordering::Relaxed), 0);
    assert_eq!(timers.next_expiration_ms(4), Some(10));
    assert_eq!(first.0.load(Ordering::Relaxed), 1);
    assert_eq!(second.0.load(Ordering::Relaxed), 0);
    assert_eq!(timers.next_expiration_ms(10), None);
    assert_eq!(second.0.load(Ordering::Relaxed), 1);
}

#[test]
fn a_full_queue_gives_up_a_timer_by_waking_it() {
    let mut timers = EmbassyTimers::new();
    let wakers: Vec<_> = (0..16).map(|_| waker()).collect();
    for (index, (_, waker)) in wakers.iter().enumerate() {
        assert!(timers.schedule_wake(1_000_000 + index as u64, waker));
    }
    let (_, late) = waker();
    assert!(timers.schedule_wake(2_000_000, &late));
    let woken: usize = wakers.iter().map(|(count, _)| count.0.load(Ordering::Relaxed)).sum();
    assert_eq!(woken, 1);
}
