//! Per-thread run policies and the periodic CPU quota.
use vstd::prelude::*;
use crate::nonzero::NonZeroU32;

verus! {

/// Periodic CPU quota used by [`RunPolicy::Budgeted`].
///
/// `capacity` is the maximum wall-clock runtime available in each
/// `replenishment_period`. Interrupt latency is charged to the interrupted
/// thread, so accounting never understates CPU use. This is an upper bound, not
/// a guarantee that the scheduler can supply that amount of CPU time.
#[derive(Clone, Copy, Debug, Eq, PartialEq, Structural)]
pub struct BudgetSpec {
    capacity: NonZeroU32,
    replenishment_period: NonZeroU32,
}

impl BudgetSpec {
    #[verifier::type_invariant]
    spec fn fits(self) -> bool {
        self.capacity@ <= self.replenishment_period@
    }

    /// Runtime available in one period, in milliseconds.
    pub closed spec fn capacity_ms(self) -> u32 {
        self.capacity@
    }

    /// Length of one period, in milliseconds.
    pub closed spec fn period_ms(self) -> u32 {
        self.replenishment_period@
    }

    /// Creates a quota when the capacity fits within its period.
    pub fn try_new(capacity: NonZeroU32, replenishment_period: NonZeroU32) -> (r: Option<Self>)
        ensures
            r is Some <==> capacity@ <= replenishment_period@,
            r is Some ==> r->0.capacity_ms() == capacity@ && r->0.period_ms()
                == replenishment_period@,
    {
        if capacity.get() <= replenishment_period.get() {
            Some(BudgetSpec { capacity, replenishment_period })
        } else {
            None
        }
    }

    /// Maximum runtime available in one replenishment period.
    pub fn capacity(self) -> (r: NonZeroU32)
        ensures
            r@ == self.capacity_ms(),
            self.capacity_ms() <= self.period_ms(),
    {
        proof {
            use_type_invariant(self);
        }
        self.capacity
    }

    /// Length of one replenishment period.
    pub fn replenishment_period(self) -> (r: NonZeroU32)
        ensures
            r@ == self.period_ms(),
            self.capacity_ms() <= self.period_ms(),
    {
        proof {
            use_type_invariant(self);
        }
        self.replenishment_period
    }
}

/// Per-thread scheduling policy used by the unified scheduler backend.
#[derive(Clone, Copy, Debug, Default, Eq, PartialEq, Structural)]
pub enum RunPolicy {
    /// Runs until it yields, blocks, or exits; ready tasks retain FIFO order.
    #[default]
    Cooperative,
    /// Cooperative execution bounded by a periodic CPU quota.
    Budgeted(BudgetSpec),
    /// Allows equal-priority round-robin preemption at the given time slice.
    Preemptive { time_slice: NonZeroU32 },
}

/// What the scheduler timer found out about the running task's quota.
#[derive(Clone, Copy, Debug, Eq, PartialEq, Structural)]
pub enum BudgetExpiry {
    NotBudgeted,
    StillAvailable,
    ThrottleNow,
    DeferredBySchedulerLock,
}

/// Periodic-quota state of one task.
#[derive(Clone, Copy, Debug, Eq, PartialEq, Structural)]
pub struct BudgetState {
    pub spec: Option<BudgetSpec>,
    pub remaining: u32,
    pub replenishes_at: u64,
    pub running_since: Option<u64>,
    pub lock_overrun_pending: bool,
}

/// `a + b`, capped at the largest clock value.
pub open spec fn clock_add(a: int, b: int) -> u64 {
    if a + b > u64::MAX {
        u64::MAX
    } else {
        (a + b) as u64
    }
}

/// `now - since`, or zero when the clock reads earlier than `since`.
pub open spec fn elapsed_ms(now: u64, since: u64) -> u64 {
    if now >= since {
        (now - since) as u64
    } else {
        0
    }
}

proof fn lemma_quotient_bound(a: int, b: int)
    requires
        0 <= a,
        b > 0,
    ensures
        0 <= a / b <= a,
{
    vstd::arithmetic::div_mod::lemma_div_is_ordered_by_denominator(a, 1, b);
    vstd::arithmetic::div_mod::lemma_div_basics(a);
    vstd::arithmetic::div_mod::lemma_div_pos_is_pos(a, b);
}

/// A grid point that is not after `now` is followed by the next grid point, and
/// the step that first passes `now` is the quotient plus one.
proof fn lemma_grid_step(first: int, steps: int, period: int, now: int)
    requires
        0 <= steps,
        0 < period,
        first + steps * period <= now,
    ensures
        steps * period >= 0,
        (steps + 1) * period == steps * period + period,
        first + (steps + 1) * period > now ==> steps == (now - first) / period,
{
    assert(steps * period >= 0) by (nonlinear_arith)
        requires
            steps >= 0,
            period > 0,
    ;
    assert((steps + 1) * period == steps * period + period) by (nonlinear_arith);
    if first + (steps + 1) * period > now {
        let r = now - first - steps * period;
        vstd::arithmetic::div_mod::lemma_fundamental_div_mod_converse(now - first, period, steps, r);
    }
}

/// The boundary that follows the last one not after `now` lies after `now`.
proof fn lemma_boundary_is_after(first: int, period: int, now: int)
    requires
        0 < period,
        first <= now,
    ensures
        first + ((now - first) / period + 1) * period > now,
        first + ((now - first) / period) * period <= now,
{
    let q = (now - first) / period;
    vstd::arithmetic::div_mod::lemma_fundamental_div_mod(now - first, period);
    vstd::arithmetic::div_mod::lemma_mod_bound(now - first, period);
    assert((q + 1) * period == period * q + period) by (nonlinear_arith);
    assert(q * period == period * q) by (nonlinear_arith);
}

/// First boundary of the grid `at, at + period, at + 2 * period, ..` that lies
/// strictly after `now`, capped at the largest clock value.
pub open spec fn next_boundary(at: u64, period: u32, now: u64) -> u64 {
    if at > now {
        at
    } else {
        clock_add(at as int, ((now - at) / (period as int) + 1) * period)
    }
}

impl BudgetState {
    /// The quota left after running from `running_since` until `now`.
    pub open spec fn charged(self, now: u64) -> u32 {
        match self.running_since {
            Some(started) => if elapsed_ms(now, started) >= self.remaining {
                0
            } else {
                (self.remaining - elapsed_ms(now, started)) as u32
            },
            None => self.remaining,
        }
    }

    /// The state after charging the running interval up to `now`.
    pub open spec fn charge(self, now: u64) -> BudgetState {
        BudgetState {
            remaining: self.charged(now),
            running_since: if self.running_since is Some {
                Some(now)
            } else {
                None
            },
            ..self
        }
    }

    /// Whether a replenishment boundary has been reached and may be applied.
    pub open spec fn due(self, now: u64) -> bool {
        self.spec is Some && !self.lock_overrun_pending && now >= self.replenishes_at
    }

    /// The state after applying a due replenishment, if there is one.
    pub open spec fn replenished(self, now: u64) -> BudgetState {
        if self.due(now) {
            BudgetState {
                replenishes_at: next_boundary(
                    self.replenishes_at,
                    self.spec->0.period_ms(),
                    now,
                ),
                remaining: self.spec->0.capacity_ms(),
                ..self
            }
        } else {
            self
        }
    }

    /// The state after the task starts running at `now`.
    pub open spec fn dispatched(self, now: u64) -> BudgetState {
        let r = self.replenished(now);
        if self.spec is Some {
            BudgetState { running_since: Some(now), ..r }
        } else {
            r
        }
    }

    /// The state after the task stops running at `now`.
    pub open spec fn switched_out(self, now: u64) -> BudgetState {
        BudgetState { running_since: None, ..self.charge(now) }
    }

    /// What the timer reports for this state at `now`.
    pub open spec fn expiry(self, now: u64, scheduler_locked: bool) -> BudgetExpiry {
        if self.spec is None {
            BudgetExpiry::NotBudgeted
        } else if self.charged(now) != 0 {
            BudgetExpiry::StillAvailable
        } else if scheduler_locked {
            BudgetExpiry::DeferredBySchedulerLock
        } else {
            BudgetExpiry::ThrottleNow
        }
    }

    /// The state after the timer fires at `now`.
    pub open spec fn timed(self, now: u64, scheduler_locked: bool) -> BudgetState {
        if self.spec is None {
            self
        } else if self.charged(now) != 0 {
            self.charge(now)
        } else {
            BudgetState {
                running_since: None,
                lock_overrun_pending: self.lock_overrun_pending || scheduler_locked,
                ..self.charge(now)
            }
        }
    }

    /// The state after the outermost unlock applies a deferred exhaustion.
    pub open spec fn overrun_applied(self, now: u64) -> BudgetState {
        if self.lock_overrun_pending && self.spec is Some {
            BudgetState {
                lock_overrun_pending: false,
                remaining: 0,
                running_since: None,
                replenishes_at: next_boundary(
                    self.replenishes_at,
                    self.spec->0.period_ms(),
                    now,
                ),
                ..self
            }
        } else {
            self
        }
    }

    /// A fresh quota for `policy`.
    pub open spec fn fresh(policy: RunPolicy, now: u64) -> BudgetState {
        match policy {
            RunPolicy::Budgeted(spec) => BudgetState {
                spec: Some(spec),
                remaining: spec.capacity_ms(),
                replenishes_at: clock_add(now as int, spec.period_ms() as int),
                running_since: None,
                lock_overrun_pending: false,
            },
            _ => BudgetState {
                spec: None,
                remaining: 0,
                replenishes_at: 0,
                running_since: None,
                lock_overrun_pending: false,
            },
        }
    }

    /// The quota never exceeds the capacity of its specification.
    pub open spec fn within_capacity(self) -> bool {
        match self.spec {
            Some(spec) => self.remaining <= spec.capacity_ms(),
            None => self.remaining == 0,
        }
    }

    /// The state of a task without a quota.
    pub fn none() -> (r: Self)
        ensures
            r == BudgetState::fresh(RunPolicy::Cooperative, 0),
            r.within_capacity(),
    {
        BudgetState {
            spec: None,
            remaining: 0,
            replenishes_at: 0,
            running_since: None,
            lock_overrun_pending: false,
        }
    }

    /// A full quota for a budgeted policy, and no quota for any other.
    pub fn for_policy(policy: RunPolicy, now: u64) -> (r: Self)
        ensures
            r == BudgetState::fresh(policy, now),
            r.within_capacity(),
    {
        match policy {
            RunPolicy::Budgeted(spec) => BudgetState {
                spec: Some(spec),
                remaining: spec.capacity().get(),
                replenishes_at: now.saturating_add(spec.replenishment_period().get() as u64),
                running_since: None,
                lock_overrun_pending: false,
            },
            _ => Self::none(),
        }
    }

    /// Unused quota in milliseconds.
    pub fn remaining(&self) -> (r: u32)
        ensures
            r == self.remaining,
    {
        self.remaining
    }

    /// Next replenishment boundary.
    pub fn replenishes_at(&self) -> (r: u64)
        ensures
            r == self.replenishes_at,
    {
        self.replenishes_at
    }

    /// Whether an exhaustion waits for the outermost scheduler unlock.
    pub fn lock_overrun_pending(&self) -> (r: bool)
        ensures
            r == self.lock_overrun_pending,
    {
        self.lock_overrun_pending
    }

    /// Starts charging at `now`, after applying a due replenishment.
    pub fn on_dispatch(&mut self, now: u64)
        ensures
            *final(self) == old(self).dispatched(now),
    {
        self.replenish_if_due(now);
        if self.spec.is_some() {
            self.running_since = Some(now);
        }
    }

    /// Charges the interval that ends at `now` and stops charging.
    pub fn on_switch_out(&mut self, now: u64)
        ensures
            *final(self) == old(self).switched_out(now),
    {
        self.charge_until(now);
        self.running_since = None;
    }

    /// When the running interval uses up the quota, if it is running at all.
    pub fn exhaustion_deadline(&self) -> (r: Option<u64>)
        ensures
            r == (match self.running_since {
                Some(started) => if self.remaining != 0 {
                    Some(clock_add(started as int, self.remaining as int))
                } else {
                    None
                },
                None => None,
            }),
    {
        match self.running_since {
            Some(started) => if self.remaining != 0 {
                Some(started.saturating_add(self.remaining as u64))
            } else {
                None
            },
            None => None,
        }
    }

    /// Charges the running interval and reports whether the quota is used up.
    pub fn on_timer(&mut self, now: u64, scheduler_locked: bool) -> (r: BudgetExpiry)
        ensures
            r == old(self).expiry(now, scheduler_locked),
            *final(self) == old(self).timed(now, scheduler_locked),
    {
        if self.spec.is_none() {
            return BudgetExpiry::NotBudgeted;
        }
        self.charge_until(now);
        if self.remaining != 0 {
            return BudgetExpiry::StillAvailable;
        }
        self.running_since = None;
        if scheduler_locked {
            self.lock_overrun_pending = true;
            BudgetExpiry::DeferredBySchedulerLock
        } else {
            BudgetExpiry::ThrottleNow
        }
    }

    /// Applies a lock-deferred exhaustion and returns the next eligible time.
    pub fn throttle_after_lock_overrun(&mut self, now: u64) -> (r: Option<u64>)
        ensures
            *final(self) == old(self).overrun_applied(now),
            r == (if old(self).lock_overrun_pending && old(self).spec is Some {
                Some(final(self).replenishes_at)
            } else {
                None
            }),
    {
        if !self.lock_overrun_pending {
            return None;
        }
        let spec = match self.spec {
            Some(spec) => spec,
            None => {
                return None;
            },
        };
        self.lock_overrun_pending = false;
        self.remaining = 0;
        self.running_since = None;

        let period: u64 = spec.replenishment_period().get() as u64;
        let ghost first = self.replenishes_at;
        let ghost mut steps: int = 0;
        while self.replenishes_at <= now
            invariant_except_break
                first > now ==> self.replenishes_at == first,
                first <= now ==> self.replenishes_at == clock_add(first as int, steps * period),
                steps > 0 ==> first + (steps - 1) * period <= now,
                first <= now && self.replenishes_at > now ==> steps > 0,
                first <= now && self.replenishes_at > now ==> steps == (now - first) / (
                period as int) + 1,
            invariant
                self.spec == Some(spec),
                self.spec == old(self).spec,
                old(self).lock_overrun_pending,
                first == old(self).replenishes_at,
                !self.lock_overrun_pending,
                self.remaining == 0,
                self.running_since is None,
                period == spec.period_ms(),
                period > 0,
                steps >= 0,
            ensures
                self.replenishes_at == next_boundary(first, period as u32, now),
            decreases (if self.replenishes_at <= now { now + 1 - self.replenishes_at } else { 0 }),
        {
            let next: u64 = self.replenishes_at.saturating_add(period);
            proof {
                lemma_boundary_is_after(first as int, period as int, now as int);
                if first + steps * period <= now {
                    lemma_grid_step(first as int, steps, period as int, now as int);
                }
            }
            if next == self.replenishes_at {
                self.replenishes_at = u64::MAX;
                break;
            }
            self.replenishes_at = next;
            proof {
                steps = steps + 1;
            }
        }
        Some(self.replenishes_at)
    }

    /// Replenishes a non-running task while preserving the original phase.
    pub fn replenish_if_due(&mut self, now: u64) -> (r: bool)
        ensures
            r == old(self).due(now),
            *final(self) == old(self).replenished(now),
    {
        let spec = match self.spec {
            Some(spec) => spec,
            None => {
                return false;
            },
        };
        if self.lock_overrun_pending || now < self.replenishes_at {
            return false;
        }
        let period: u64 = spec.replenishment_period().get() as u64;
        proof {
            lemma_quotient_bound(now - self.replenishes_at, period as int);
        }
        let elapsed_periods: u64 = ((now - self.replenishes_at) / period).saturating_add(1);
        let advance: u64 = match elapsed_periods.checked_mul(period) {
            Some(advance) => advance,
            None => u64::MAX,
        };
        proof {
            let q = (now - self.replenishes_at) / (period as int);
            assert(q == u64::MAX ==> elapsed_periods * period >= u64::MAX) by (nonlinear_arith)
                requires
                    period >= 1,
                    q == u64::MAX ==> elapsed_periods == u64::MAX,
            ;
            lemma_boundary_is_after(self.replenishes_at as int, period as int, now as int);
        }
        self.replenishes_at = self.replenishes_at.saturating_add(advance);
        self.remaining = spec.capacity().get();
        true
    }

    /// Charges the interval that ends at `now` and starts the next one there.
    pub fn charge_until(&mut self, now: u64)
        ensures
            *final(self) == old(self).charge(now),
    {
        let started: u64 = match self.running_since {
            Some(started) => started,
            None => {
                return;
            },
        };
        let elapsed: u64 = now.saturating_sub(started);
        let charged: u32 = if elapsed > u32::MAX as u64 {
            u32::MAX
        } else {
            elapsed as u32
        };
        self.remaining = self.remaining.saturating_sub(charged);
        self.running_since = Some(now);
    }
}

/// No operation lets the quota exceed the capacity of its specification.
pub proof fn law_remaining_never_exceeds_capacity(
    state: BudgetState,
    policy: RunPolicy,
    now: u64,
    locked: bool,
)
    requires
        state.within_capacity(),
    ensures
        BudgetState::fresh(policy, now).within_capacity(),
        state.charge(now).within_capacity(),
        state.dispatched(now).within_capacity(),
        state.switched_out(now).within_capacity(),
        state.timed(now, locked).within_capacity(),
        state.replenished(now).within_capacity(),
        state.overrun_applied(now).within_capacity(),
{
}

/// Splitting a run into charges neither loses nor double-counts time: charging up to one
/// moment and then up to a later one is charging up to the later one, and never takes
/// more than there is.
pub proof fn law_charges_add_up(state: BudgetState, started: u64, first: u64, second: u64)
    requires
        state.spec is Some,
        state.running_since == Some(started),
        started <= first <= second,
    ensures
        state.charge(first).charge(second) == state.charge(second),
        state.charge(second).remaining == (if second - started <= state.remaining {
            state.remaining - (second - started)
        } else {
            0
        }),
        state.charge(second).running_since == Some(second),
{
}

/// Running never refills the quota: switching out takes exactly the elapsed time
/// off the remaining quota and leaves the replenishment boundary where it was.
pub proof fn law_switch_out_preserves_unused_budget(state: BudgetState, started: u64, now: u64)
    requires
        state.running_since == Some(started),
        started <= now,
    ensures
        now - started <= state.remaining ==> state.switched_out(now).remaining == state.remaining
            - (now - started),
        now - started > state.remaining ==> state.switched_out(now).remaining == 0,
        state.switched_out(now).replenishes_at == state.replenishes_at,
        state.switched_out(now).running_since is None,
{
}

/// Replenishment restores exactly the capacity and keeps the phase: the new
/// boundary is the first one after `now` on the grid of the old boundary.
pub proof fn law_replenishment_preserves_phase(state: BudgetState, now: u64)
    requires
        state.due(now),
        state.spec->0.period_ms() > 0,
    ensures
        state.replenished(now).remaining == state.spec->0.capacity_ms(),
        state.replenished(now).replenishes_at < u64::MAX ==> {
            let period = state.spec->0.period_ms() as int;
            let next = state.replenished(now).replenishes_at;
            &&& (next - state.replenishes_at) % period == 0
            &&& next > now
            &&& next - period <= now
        },
{
    let period = state.spec->0.period_ms() as int;
    let at = state.replenishes_at as int;
    let k = (now - at) / period + 1;
    lemma_boundary_is_after(at, period, now as int);
    vstd::arithmetic::div_mod::lemma_mod_multiples_basic(k, period);
    assert(k * period == ((now - at) / period) * period + period) by (nonlinear_arith)
        requires
            k == (now - at) / period + 1,
    ;
}

/// Renewing a quota never moves its boundary back.
pub proof fn law_renewal_moves_the_boundary_on(state: BudgetState, now: u64)
    ensures
        state.replenished(now).replenishes_at >= state.replenishes_at,
        state.overrun_applied(now).replenishes_at >= state.replenishes_at,
{
    if state.spec is Some && state.replenishes_at <= now {
        let period = state.spec->0.period_ms() as int;
        let k = (now - state.replenishes_at) / period + 1;
        if period > 0 {
            lemma_quotient_bound(now - state.replenishes_at, period);
            assert(k * period >= 0) by (nonlinear_arith)
                requires
                    k >= 0,
                    period >= 0,
            ;
        } else {
            assert(k * period == 0) by (nonlinear_arith)
                requires
                    period == 0,
            ;
        }
    }
}

/// An exhaustion that the scheduler lock deferred cannot be erased by holding the
/// lock across replenishment boundaries: nothing is due while it is pending, and
/// applying it leaves no quota until a boundary strictly after the unlock.
pub proof fn law_lock_cannot_erase_exhaustion(state: BudgetState, unlocked: u64, later: u64)
    requires
        state.lock_overrun_pending,
        state.spec is Some,
        state.spec->0.period_ms() > 0,
    ensures
        !state.due(later),
        state.overrun_applied(unlocked).remaining == 0,
        !state.overrun_applied(unlocked).lock_overrun_pending,
        state.overrun_applied(unlocked).replenishes_at > unlocked || unlocked == u64::MAX,
        later <= unlocked && unlocked < u64::MAX ==> !state.overrun_applied(unlocked).due(later),
{
    if state.replenishes_at <= unlocked {
        lemma_boundary_is_after(
            state.replenishes_at as int,
            state.spec->0.period_ms() as int,
            unlocked as int,
        );
    }
}

/// The timer reports exhaustion from the reported deadline on, and not before.
pub proof fn law_exhaustion_deadline_is_exact(
    state: BudgetState,
    started: u64,
    now: u64,
    locked: bool,
)
    requires
        state.spec is Some,
        state.running_since == Some(started),
        state.remaining != 0,
        started <= now,
    ensures
        (state.expiry(now, locked) is StillAvailable) <==> now < started + state.remaining,
{
}

/// Milliseconds that a task ran, one interval of start and end after the other.
pub open spec fn running_time(intervals: Seq<(u64, u64)>) -> int
    decreases intervals.len(),
{
    if intervals.len() == 0 {
        0
    } else {
        running_time(intervals.drop_last()) + (intervals.last().1 - intervals.last().0)
    }
}

impl BudgetState {
    /// The state after the task has been dispatched and switched out once for each
    /// interval.
    pub open spec fn after_running(self, intervals: Seq<(u64, u64)>) -> BudgetState
        decreases intervals.len(),
    {
        if intervals.len() == 0 {
            self
        } else {
            self.after_running(intervals.drop_last()).dispatched(
                intervals.last().0,
            ).switched_out(intervals.last().1)
        }
    }

    /// Every interval starts before the next boundary and ends before the quota that was
    /// left at its start is overdrawn.
    pub open spec fn admits_running(self, intervals: Seq<(u64, u64)>) -> bool {
        forall|i: int|
            #![trigger intervals[i]]
            0 <= i < intervals.len() ==> {
                &&& intervals[i].0 <= intervals[i].1
                &&& intervals[i].0 < self.replenishes_at
                &&& intervals[i].1 - intervals[i].0 <= self.after_running(
                    intervals.take(i),
                ).remaining
            }
    }
}

/// Between two boundaries a task uses exactly the quota that it is charged for, however
/// often it is switched out meanwhile, and so never more than the capacity.
pub proof fn law_quota_bounds_running_time(state: BudgetState, intervals: Seq<(u64, u64)>)
    requires
        state.spec is Some,
        state.within_capacity(),
        state.admits_running(intervals),
    ensures
        running_time(intervals) == state.remaining - state.after_running(intervals).remaining,
        running_time(intervals) <= state.spec->0.capacity_ms(),
        state.after_running(intervals).replenishes_at == state.replenishes_at,
        state.after_running(intervals).spec == state.spec,
    decreases intervals.len(),
{
    if intervals.len() > 0 {
        let before = intervals.drop_last();
        let last = intervals.len() - 1;
        assert(intervals.take(last) =~= before);
        assert forall|i: int|
            #![trigger before[i]]
            0 <= i < before.len() implies {
            &&& before[i].0 <= before[i].1
            &&& before[i].0 < state.replenishes_at
            &&& before[i].1 - before[i].0 <= state.after_running(before.take(i)).remaining
        } by {
            assert(before[i] == intervals[i]);
            assert(before.take(i) =~= intervals.take(i));
        }
        law_quota_bounds_running_time(state, before);
        assert(intervals[last] == intervals.last());
    }
}

} // verus!
