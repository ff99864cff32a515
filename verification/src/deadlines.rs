//! What the shared timer is programmed for.
//!
//! Sleeps, timed waits, quotas, time slices, the limit on the scheduler lock and Embassy
//! timers share one timer. It never fires later than something is due, and when it is not
//! programmed nothing ever is.
use vstd::prelude::*;
use crate::config::{Diagnostics, TASK_SLOT_COUNT};
use crate::kernel;
use crate::kernel::TimerAction;
use crate::metrics;
use crate::model::SchedModel;
use crate::quotas;
use crate::running;
use crate::task::State;
use crate::timing;

verus! {

/// The timer is armed, and fires by `later`: after as much time as the timer can take, or
/// after one millisecond if `later` has passed.
pub open spec fn fires_by(action: TimerAction, now: u64, later: u64, max_delay: u32) -> bool {
    &&& action matches TimerAction::Arm(delay)
    &&& 1 <= delay@ <= max_delay
    &&& delay@ <= later - now || delay@ == 1
}

/// A deadline that shares the timer is served in time.
proof fn lemma_deadline_served(
    deadlines: Seq<Option<u64>>,
    i: int,
    action: TimerAction,
    now: u64,
    later: u64,
    max_delay: u32,
)
    requires
        0 <= i < deadlines.len(),
        deadlines[i] is Some,
        deadlines[i]->0 <= later,
        max_delay > 0,
        kernel::programs(action, timing::earliest(deadlines), now, max_delay),
    ensures
        fires_by(action, now, later, max_delay),
{
    timing::law_earliest_deadline_is_least(deadlines);
    let at = timing::earliest(deadlines)->0;
    kernel::law_delay_never_misses_a_deadline(at, now, max_delay);
}

impl SchedModel {
    // ---- Never late --------------------------------------------------------------
    /// If examining the tasks at some time would change the state of any of them, be it the
    /// end of a sleep, of a timed wait for a semaphore or a mutex, or the renewal of a quota,
    /// then the timer is armed and fires by that time.
    pub proof fn law_timer_fires_before_a_task_is_due(
        self,
        now: u64,
        limit: u32,
        embassy: Option<u64>,
        action: TimerAction,
        max_delay: u32,
        slot: usize,
        later: u64,
    )
        requires
            self.coherent(),
            self.all_timekept(),
            max_delay > 0,
            kernel::programs(
                action,
                timing::earliest(self.deadlines(now, limit, embassy)),
                now,
                max_delay,
            ),
            slot < TASK_SLOT_COUNT,
            self.all_woken(later).tasks[slot as int].state != self.tasks[slot as int].state,
        ensures
            fires_by(action, now, later, max_delay),
    {
        self.law_examination_serves_what_is_due(slot, later);
        self.lemma_slot_deadline_served(now, limit, embassy, action, max_delay, slot, later);
    }

    proof fn lemma_slot_deadline_served(
        self,
        now: u64,
        limit: u32,
        embassy: Option<u64>,
        action: TimerAction,
        max_delay: u32,
        slot: usize,
        later: u64,
    )
        requires
            self.all_timekept(),
            max_delay > 0,
            kernel::programs(
                action,
                timing::earliest(self.deadlines(now, limit, embassy)),
                now,
                max_delay,
            ),
            slot < TASK_SLOT_COUNT,
            ({
                let t = self.task(slot);
                ||| (t.state == State::Sleeping || t.state == State::Blocked) && t.wake_at != 0
                    && later >= t.wake_at
                ||| t.state == State::Sleeping && later >= t.wake_at
                ||| t.state == State::Throttled && later >= t.budget.replenishes_at
            }),
        ensures
            fires_by(action, now, later, max_delay),
    {
        let all = self.deadlines(now, limit, embassy);
        let t = self.task(slot);
        assert(quotas::timekept(self.task(slot)));
        assert(self.tasks[slot as int] == t);
        if t.state == State::Throttled {
            let ds = self.time_sliced(now).0.replenish_deadlines();
            assert(ds[slot as int] == Some(t.budget.replenishes_at));
            timing::law_earliest_deadline_is_least(ds);
            assert(all[2] is Some && all[2]->0 <= later);
            lemma_deadline_served(all, 2, action, now, later, max_delay);
        } else {
            let ds = self.wake_deadlines();
            assert(ds[slot as int] == Some(t.wake_at));
            timing::law_earliest_deadline_is_least(ds);
            assert(all[0] is Some && all[0]->0 <= later);
            lemma_deadline_served(all, 0, action, now, later, max_delay);
        }
    }

    /// If a timer interrupt at some time would find anything to do, then the timer is armed
    /// and fires by that time: a task whose state changes, a quota that is used up, a time
    /// slice that is over, or a scheduler lock that has been held for its limit. A quota
    /// with nothing left is not waited for.
    pub proof fn law_timer_fires_before_an_interrupt_is_due(
        self,
        now: u64,
        limit: u32,
        embassy: Option<u64>,
        action: TimerAction,
        max_delay: u32,
        later: u64,
    )
        requires
            self.coherent(),
            self.all_timekept(),
            max_delay > 0,
            kernel::programs(
                action,
                timing::earliest(self.deadlines(now, limit, embassy)),
                now,
                max_delay,
            ),
            limit > 0,
            self.task(self.current).budget.spec is Some ==> self.task(
                self.current,
            ).budget.remaining > 0,
            ({
                let s = self.time_sliced(now).0;
                let (n, violation) = s.timer_interrupted(later, limit);
                ||| violation is Some
                ||| n.time_slice_pending && !self.time_slice_pending
                ||| exists|slot: usize|
                    slot < TASK_SLOT_COUNT && (#[trigger] n.task(slot)).state != self.task(
                        slot,
                    ).state
            }),
        ensures
            fires_by(action, now, later, max_delay),
    {
        let all = self.deadlines(now, limit, embassy);
        let s = self.time_sliced(now).0;
        let (n, violation) = s.timer_interrupted(later, limit);
        let d = s.with_diagnostics(
            Diagnostics {
                timer_interrupts: metrics::bumped(s.diagnostics.timer_interrupts),
                ..s.diagnostics
            },
        );
        self.lemma_coherent_frame(s);
        s.lemma_coherent_frame(d);
        let w = d.all_woken(later);
        let cur = self.current;
        d.lemma_all_woken(later);
        d.lemma_all_woken_stirred(later);
        d.law_examination_serves_what_is_due(cur, later);
        assert(running::keeps_time(d.task(cur), w.task(cur)));
        assert(quotas::timekept(self.task(cur)));
        let t = self.task(cur);
        assert(w.task(cur).state == State::Running ==> t.state == State::Running);
        if violation is Some {
            let since = t.scheduler_lock_started_at->0;
            assert(w.charged(later).task(cur).scheduler_lock_started_at
                == t.scheduler_lock_started_at);
            assert(later >= since + limit);
            assert(all[3] == s.lock_deadline(limit));
            assert(all[3] is Some && all[3]->0 <= later);
            lemma_deadline_served(all, 3, action, now, later, max_delay);
        } else if n.time_slice_pending && !self.time_slice_pending {
            d.lemma_slice_untouched(later);
            assert(all[1] == self.time_sliced(now).1);
            assert(all[1] is Some && all[1]->0 <= later);
            lemma_deadline_served(all, 1, action, now, later, max_delay);
        } else {
            let slot = choose|slot: usize|
                slot < TASK_SLOT_COUNT && (#[trigger] n.task(slot)).state != self.task(slot).state;
            d.law_examination_serves_what_is_due(slot, later);
            if w.task(slot).state != d.task(slot).state {
                self.lemma_slot_deadline_served(
                    now,
                    limit,
                    embassy,
                    action,
                    max_delay,
                    slot,
                    later,
                );
            } else {
                assert(slot == cur);
                assert(s.exhaustion() is Some && s.exhaustion()->0 <= later);
                assert(all[2] is Some && all[2]->0 <= later);
                lemma_deadline_served(all, 2, action, now, later, max_delay);
            }
        }
    }

    /// An examination leaves the time slice alone.
    pub(crate) proof fn lemma_slice_untouched(self, now: u64)
        requires
            self.coherent(),
        ensures
            self.all_woken(now).time_slice_deadline == self.time_slice_deadline,
            self.all_woken(now).time_slice_pending == self.time_slice_pending,
    {
        self.lemma_slice_woken(now, TASK_SLOT_COUNT as nat);
        self.lemma_woken_upto(now, TASK_SLOT_COUNT as nat);
        self.woken_upto(now, TASK_SLOT_COUNT as nat).lemma_slice_replenished(
            now,
            TASK_SLOT_COUNT as nat,
        );
    }

    proof fn lemma_slice_woken(self, now: u64, n: nat)
        requires
            self.coherent(),
            n <= TASK_SLOT_COUNT,
        ensures
            self.woken_upto(now, n).time_slice_deadline == self.time_slice_deadline,
            self.woken_upto(now, n).time_slice_pending == self.time_slice_pending,
        decreases n,
    {
        if n > 0 {
            self.lemma_slice_woken(now, (n - 1) as nat);
            self.lemma_woken_upto(now, (n - 1) as nat);
            let m = self.woken_upto(now, (n - 1) as nat);
            let slot = (n - 1) as usize;
            if m.task(slot).waiting_mutex != 0 {
                m.lemma_mutex_donation_left(slot);
            }
        }
    }

    proof fn lemma_slice_replenished(self, now: u64, n: nat)
        ensures
            self.replenished_upto(now, n).time_slice_deadline == self.time_slice_deadline,
            self.replenished_upto(now, n).time_slice_pending == self.time_slice_pending,
        decreases n,
    {
        if n > 0 {
            self.lemma_slice_replenished(now, (n - 1) as nat);
        }
    }

    /// The timer fires by the time of the next Embassy timer.
    pub proof fn law_timer_fires_before_an_alarm_is_due(
        self,
        now: u64,
        limit: u32,
        alarm: u64,
        action: TimerAction,
        max_delay: u32,
    )
        requires
            max_delay > 0,
            kernel::programs(
                action,
                timing::earliest(self.deadlines(now, limit, Some(alarm))),
                now,
                max_delay,
            ),
        ensures
            fires_by(action, now, alarm, max_delay),
    {
        lemma_deadline_served(
            self.deadlines(now, limit, Some(alarm)),
            4,
            action,
            now,
            alarm,
            max_delay,
        );
    }

    // ---- Never for nothing ---------------------------------------------------------
    /// Something is due at `at`: a sleep or timed wait ends, a throttled task is renewed,
    /// the running quota is used up, the time slice is over, the scheduler lock reaches its
    /// limit, or an Embassy timer expires.
    pub open spec fn due_at(self, limit: u32, embassy: Option<u64>, at: u64) -> bool {
        let c = self.tasks[self.current as int];
        ||| exists|slot: int|
            0 <= slot < TASK_SLOT_COUNT && {
                let t = #[trigger] self.tasks[slot];
                ||| (t.state == State::Sleeping || t.state == State::Blocked) && t.wake_at == at
                ||| t.state == State::Throttled && t.budget.replenishes_at == at
            }
        ||| c.state == State::Running && (c.budget.running_since matches Some(started) && (started
            + c.budget.remaining == at || (started + c.budget.remaining > u64::MAX && at
            == u64::MAX)))
        ||| c.state == State::Running && (c.scheduler_lock_started_at matches Some(started) && (
        started + limit == at || (started + limit > u64::MAX && at == u64::MAX)))
        ||| self.time_slice_deadline == at
        ||| embassy == Some(at)
    }

    /// A timer that is armed is armed for something: it fires when something is due, or at
    /// once because that has passed, or after as much time as it can take because that is
    /// further away. A timer that is not armed has nothing to wait for.
    pub proof fn law_timer_is_armed_for_something(
        self,
        now: u64,
        limit: u32,
        embassy: Option<u64>,
        action: TimerAction,
        max_delay: u32,
    )
        requires
            self.fits(),
            max_delay > 0,
            kernel::programs(
                action,
                timing::earliest(self.deadlines(now, limit, embassy)),
                now,
                max_delay,
            ),
        ensures
            action matches TimerAction::Arm(delay) ==> exists|at: u64| #[trigger]
                self.time_sliced(now).0.due_at(limit, embassy, at) && (at > now && at - now
                    <= max_delay ==> delay@ == at - now) && (at > now && at - now > max_delay
                    ==> delay@ == max_delay) && (at <= now ==> delay@ == 1),
            action == TimerAction::Disarm ==> {
                &&& embassy is None
                &&& self.time_sliced(now).0.time_slice_deadline == 0
                &&& forall|slot: usize|
                    slot < TASK_SLOT_COUNT ==> {
                        let t = #[trigger] self.task(slot);
                        &&& t.state == State::Sleeping || t.state == State::Blocked ==> t.wake_at
                            == 0
                        &&& t.state == State::Throttled ==> t.budget.replenishes_at == 0
                    }
            },
    {
        let all = self.deadlines(now, limit, embassy);
        let s = self.time_sliced(now).0;
        timing::law_earliest_deadline_is_least(all);
        let wakes = self.wake_deadlines();
        let renewals = s.replenish_deadlines();
        timing::law_earliest_deadline_is_least(wakes);
        timing::law_earliest_deadline_is_least(renewals);
        if let TimerAction::Arm(delay) = action {
            let at = timing::earliest(all)->0;
            let i = all.index_of(Some(at));
            assert(all.contains(Some(at)));
            assert(all[i] == Some(at));
            if i == 0 {
                let slot = wakes.index_of(Some(at));
                assert(wakes[slot] == Some(at));
                assert(s.tasks[slot].wake_at == at);
            } else if i == 2 {
                if s.exhaustion() != Some(at) {
                    let slot = renewals.index_of(Some(at));
                    assert(renewals.contains(Some(at)));
                    assert(renewals[slot] == Some(at));
                    assert(s.tasks[slot].budget.replenishes_at == at);
                }
            }
            assert(s.due_at(limit, embassy, at));
        } else {
            assert(all[0] is None && all[1] is None && all[2] is None && all[4] is None);
            assert forall|slot: usize| slot < TASK_SLOT_COUNT implies {
                let t = #[trigger] self.task(slot);
                &&& t.state == State::Sleeping || t.state == State::Blocked ==> t.wake_at == 0
                &&& t.state == State::Throttled ==> t.budget.replenishes_at == 0
            } by {
                assert(wakes[slot as int] is None || all[0] is Some);
                assert(renewals[slot as int] is None || all[2] is Some);
                assert(wakes[slot as int] == timing::wake_deadline(self.tasks[slot as int]));
                assert(renewals[slot as int] == timing::replenish_deadline(
                    s.tasks[slot as int],
                ));
            }
        }
    }
}

} // verus!
