//! Embassy timers on the shared scheduler timer.
//!
//! Embassy counts microsecond ticks; the scheduler clock counts milliseconds.
use vstd::multiset::Multiset;
use vstd::prelude::*;
use crate::scheduling;

verus! {

/// The timer queue of the `embassy_time_queue_utils` crate.
#[verifier::external_type_specification]
#[verifier::external_body]
pub struct ExQueue(embassy_time_queue_utils::Queue);

/// The waker type of the standard library.
#[verifier::external_type_specification]
#[verifier::external_body]
pub struct ExWaker(std::task::Waker);

/// The expiry times of the timers that a queue holds.
pub uninterp spec fn expirations(queue: embassy_time_queue_utils::Queue) -> Multiset<u64>;

/// `at` is the least of `times`, or the end of time when there are none.
pub open spec fn is_next(times: Multiset<u64>, at: u64) -> bool {
    &&& forall|t: u64| #[trigger] times.contains(t) ==> at <= t
    &&& at == u64::MAX || times.contains(at)
}

/// The times that lie after `now`.
pub open spec fn unexpired(times: Multiset<u64>, now: u64) -> Multiset<u64> {
    times.filter(|t: u64| t > now)
}

/// Timers that the queue holds at most.
pub const QUEUE_CAPACITY: usize = 16;

/// `embassy_time_queue_utils::Queue::new` makes a queue without timers.
pub assume_specification[ embassy_time_queue_utils::Queue::new ]() -> (r:
    embassy_time_queue_utils::Queue)
    ensures
        expirations(r) == Multiset::<u64>::empty(),
;

/// Calls `embassy_time_queue_utils::Queue::next_expiration`, which wakes and removes every
/// timer that has expired at `now` and returns the least expiry time that is left, or
/// `u64::MAX`.
#[verifier::external_body]
fn next_expiration(queue: &mut embassy_time_queue_utils::Queue, now: u64) -> (r: u64)
    ensures
        expirations(*final(queue)) == unexpired(expirations(*old(queue)), now),
        is_next(expirations(*final(queue)), r),
{
    queue.next_expiration(now)
}

/// Calls `embassy_time_queue_utils::Queue::schedule_wake`. A timer with the same waker is
/// moved if it would expire later, and the call changes nothing if it would not. Without
/// such a timer a new one is added; a full queue first gives up, and wakes, some other
/// timer. Which timers have the same waker is not stated.
#[verifier::external_body]
fn schedule_wake(
    queue: &mut embassy_time_queue_utils::Queue,
    at: u64,
    waker: &std::task::Waker,
) -> (r: bool)
    ensures
        scheduled(expirations(*old(queue)), expirations(*final(queue)), at, r),
{
    queue.schedule_wake(at, waker)
}

/// What scheduling a wake at `at` can do to the expiry times.
pub open spec fn scheduled(before: Multiset<u64>, after: Multiset<u64>, at: u64, changed: bool) -> bool {
    if changed {
        ||| before.len() < QUEUE_CAPACITY && after == before.insert(at)
        ||| exists|t: u64| #[trigger]
            before.contains(t) && after == before.remove(t).insert(at) && (t > at || before.len()
                == QUEUE_CAPACITY)
    } else {
        &&& after == before
        &&& exists|t: u64| #[trigger] before.contains(t) && t <= at
    }
}

/// Reads `embassy_time_driver::TICK_HZ`, which the `tick-hz-1_000_000` feature fixes.
#[verifier::external_body]
fn tick_hz() -> (r: u64)
    ensures
        r == 1_000_000,
{
    embassy_time_driver::TICK_HZ
}

/// The tick count of a millisecond clock value.
pub open spec fn ticks(now_ms: u64) -> u64 {
    if now_ms * 1000 > u64::MAX {
        u64::MAX
    } else {
        (now_ms * 1000) as u64
    }
}

/// Whole milliseconds that cover `ticks`, at least one.
pub open spec fn covering_ms(ticks: u64) -> u64 {
    let padded = if ticks + 999 > u64::MAX {
        u64::MAX as int
    } else {
        ticks + 999
    };
    if padded / 1000 == 0 {
        1
    } else {
        (padded / 1000) as u64
    }
}

/// The scheduler deadline for a timer that expires at tick `at`.
pub open spec fn alarm_ms(now_ms: u64, at: u64) -> Option<u64> {
    if at == u64::MAX {
        None
    } else {
        let left = if at <= ticks(now_ms) {
            0
        } else {
            (at - ticks(now_ms)) as u64
        };
        Some(scheduling::clock_add(now_ms as int, covering_ms(left) as int))
    }
}

/// The alarm never comes before the timer expires, and comes in the first millisecond
/// after that, as far as the clock reaches.
pub proof fn law_alarm_is_not_early(now_ms: u64, at: u64)
    requires
        now_ms * 1000 < at < u64::MAX - 1000,
    ensures
        alarm_ms(now_ms, at) is Some,
        alarm_ms(now_ms, at)->0 * 1000 >= at,
        alarm_ms(now_ms, at)->0 * 1000 < at + 1000,
        alarm_ms(now_ms, at)->0 > now_ms,
{
}

/// Ticks per millisecond.
fn ticks_per_millisecond() -> (r: u64)
    ensures
        r == 1000,
{
    tick_hz() / 1_000
}

/// The Embassy clock: zero before the runtime has a millisecond clock.
pub fn embassy_now_ticks(now_ms: Option<u64>) -> (r: u64)
    ensures
        r == (match now_ms {
            Some(now) => ticks(now),
            None => 0,
        }),
{
    match now_ms {
        Some(now) => match now.checked_mul(ticks_per_millisecond()) {
            Some(value) => value,
            None => u64::MAX,
        },
        None => 0,
    }
}

/// The timers of Embassy tasks.
pub struct EmbassyTimers {
    pub queue: embassy_time_queue_utils::Queue,
}

impl EmbassyTimers {
    pub fn new() -> (r: Self)
        ensures
            expirations(r.queue) == Multiset::<u64>::empty(),
    {
        EmbassyTimers { queue: embassy_time_queue_utils::Queue::new() }
    }

    /// Wakes expired timers and returns the scheduler deadline of the next one.
    pub fn next_expiration_ms(&mut self, now_ms: u64) -> (r: Option<u64>)
        ensures
            expirations(final(self).queue) == unexpired(
                expirations(old(self).queue),
                ticks(now_ms),
            ),
            exists|at: u64| #[trigger]
                is_next(expirations(final(self).queue), at) && r == alarm_ms(now_ms, at),
    {
        let now_ticks: u64 = embassy_now_ticks(Some(now_ms));
        let deadline_ticks: u64 = next_expiration(&mut self.queue, now_ticks);
        assert(is_next(expirations(self.queue), deadline_ticks));
        next_alarm(now_ms, deadline_ticks)
    }

    /// Wakes a task at tick `at`, and tells whether the timer must be programmed anew.
    pub fn schedule_wake(&mut self, at: u64, waker: &std::task::Waker) -> (r: bool)
        ensures
            scheduled(expirations(old(self).queue), expirations(final(self).queue), at, r),
    {
        schedule_wake(&mut self.queue, at, waker)
    }
}

/// The scheduler deadline for a timer that expires at tick `deadline_ticks`, none for
/// `u64::MAX`.
pub fn next_alarm(now_ms: u64, deadline_ticks: u64) -> (r: Option<u64>)
    ensures
        r == alarm_ms(now_ms, deadline_ticks),
{
    if deadline_ticks == u64::MAX {
        return None;
    }
    let per_ms: u64 = ticks_per_millisecond();
    let remaining_ticks: u64 = deadline_ticks.saturating_sub(embassy_now_ticks(Some(now_ms)));
    let covering: u64 = remaining_ticks.saturating_add(per_ms - 1) / per_ms;
    let delay_ms: u64 = if covering == 0 {
        1
    } else {
        covering
    };
    Some(now_ms.saturating_add(delay_ms))
}

} // verus!
