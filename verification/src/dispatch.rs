//! Switch requests, trap epilogues and context switches.
use vstd::prelude::*;
use crate::config::{Diagnostics, IDLE_SLOT, NIL, TASK_SLOT_COUNT};
use crate::links;
use crate::metrics;
use crate::metrics::bump;
use crate::model::{SchedModel, SwitchIntent};
use crate::scheduler::Sched;
use crate::scheduling::{BudgetState, RunPolicy};
use crate::task::{State, Tcb};

verus! {

impl SchedModel {
    /// `slot` is in no queue and waits for nothing, so it can start running.
    pub open spec fn dispatchable(self, slot: usize) -> bool {
        &&& slot < TASK_SLOT_COUNT
        &&& self.loose(slot)
        &&& self.task(slot).waiting_sem == 0
        &&& self.task(slot).waiting_mutex == 0
    }

    // ---- The end of an interrupt -------------------------------------------
    /// Counts a switch at the end of an interrupt.
    pub open spec fn irq_switch_counted(self, slice: bool, priority: u8, next: usize) -> SchedModel {
        let d = self.diagnostics;
        SchedModel {
            time_slice_pending: false,
            diagnostics: Diagnostics {
                irq_preemptions: metrics::bumped(d.irq_preemptions),
                time_slice_preemptions: if slice && self.task(next).priority == priority {
                    metrics::bumped(d.time_slice_preemptions)
                } else {
                    d.time_slice_preemptions
                },
                ..d
            },
            ..self
        }
    }

    /// The task that the end of an interrupt at `depth` switches to, if any.
    pub open spec fn epilogue_choice(self, now: u64) -> (SchedModel, Option<(usize, usize)>) {
        if self.task(self.current).state != State::Running {
            self.replaced()
        } else {
            self.rescheduled(self.time_slice_pending, now)
        }
    }

    pub open spec fn irq_epilogue(self, depth: u16, now: u64) -> (
        SchedModel,
        Option<(usize, usize)>,
    ) {
        if !self.started || depth != 0 {
            (self, None)
        } else {
            let (m, target) = self.epilogue_choice(now);
            match target {
                Some((previous, next)) => (
                    m.irq_switch_counted(
                        self.time_slice_pending,
                        self.task(self.current).priority,
                        next,
                    ),
                    target,
                ),
                None => (m, None),
            }
        }
    }

    /// The switch that a trap at its outermost end carries out, if any: the one that
    /// was asked for, or the one that the end of an interrupt calls for.
    pub open spec fn trap_choice(self, now: u64) -> (SchedModel, Option<(usize, usize)>) {
        match self.pending_switch {
            Some(intent) => (
                self.pending_consumed(),
                Some((self.current, intent.target)),
            ),
            None => self.epilogue_choice(now),
        }
    }

    /// `previous` keeps `frame` and `next` runs from its own saved frame.
    pub open spec fn trap_switched(
        self,
        previous: usize,
        next: usize,
        frame: usize,
        now: u64,
    ) -> SchedModel {
        let a = self.accounted(previous, next, now);
        let b = if a.task(previous).state != State::Free {
            a.with_task(previous, Tcb { saved_frame: frame, ..a.task(previous) })
        } else {
            a
        };
        let t = b.task(next);
        let c = b.with_task(
            next,
            Tcb {
                saved_frame: 0,
                state: State::Running,
                resume_generation: t.resume_generation.wrapping_add(1),
                ..t
            },
        );
        SchedModel {
            current: next,
            diagnostics: Diagnostics {
                context_switches: metrics::bumped(c.diagnostics.context_switches),
                ..c.diagnostics
            },
            ..c
        }
    }

    /// The frame that `next` resumes from when `previous` leaves with `frame`.
    pub open spec fn resume_frame(self, previous: usize, next: usize, frame: usize) -> usize {
        if previous == next && self.task(previous).state != State::Free {
            frame
        } else {
            self.task(next).saved_frame
        }
    }

    /// A trap ends at `depth` with `frame` saved.
    pub open spec fn trapped(self, frame: usize, depth: u16, now: u64) -> (SchedModel, usize) {
        if !self.started || depth != 0 {
            (self, frame)
        } else {
            let (m, target) = self.trap_choice(now);
            match target {
                Some((previous, next)) => (
                    m.trap_switched(previous, next, frame, now).irq_switch_counted(
                        self.time_slice_pending,
                        self.task(self.current).priority,
                        next,
                    ),
                    m.resume_frame(previous, next, frame),
                ),
                None => (m, frame),
            }
        }
    }

    /// The switch at the end of a trap has a target with a saved frame.
    pub open spec fn trap_target_saved(self, frame: usize, depth: u16, now: u64) -> bool {
        let (m, target) = self.trap_choice(now);
        self.started && depth == 0 && target is Some ==> {
            &&& (target->0).1 < TASK_SLOT_COUNT
            &&& m.resume_frame((target->0).0, (target->0).1, frame) != 0
        }
    }

    // ---- Requested switches ------------------------------------------------
    /// The request to switch from `source` to `target` as things stand.
    pub open spec fn intent(self, source: usize, target: usize) -> SwitchIntent {
        SwitchIntent {
            source,
            source_generation: self.task(source).identity_generation,
            source_resume: self.task(source).resume_generation,
            target,
            target_generation: self.task(target).identity_generation,
        }
    }

    pub open spec fn intent_counted(self) -> SchedModel {
        self.with_diagnostics(
            Diagnostics {
                switch_intents_created: metrics::bumped(self.diagnostics.switch_intents_created),
                ..self.diagnostics
            },
        )
    }

    /// A detached ready task goes back to its ready queue.
    pub open spec fn restored(self, slot: usize) -> SchedModel {
        if self.task(slot).state == State::Ready && !self.is_idle(slot) && !self.ready_queued(slot) {
            self.pushed(slot)
        } else {
            self
        }
    }

    /// A request whose slots have been given to other tasks meanwhile.
    pub open spec fn intent_foreign(self, intent: SwitchIntent) -> bool {
        self.task(intent.source).identity_generation != intent.source_generation || self.task(
            intent.target,
        ).identity_generation != intent.target_generation
    }

    /// A request that an interrupt has served meanwhile: its source runs again.
    pub open spec fn intent_stale(self, intent: SwitchIntent) -> bool {
        ||| self.current != intent.source
        ||| self.task(intent.source).state == State::Running
        ||| self.task(intent.source).resume_generation != intent.source_resume
    }

    /// A request becomes pending, or is withdrawn and its target put back.
    pub open spec fn intent_committed(self, intent: SwitchIntent) -> (SchedModel, bool) {
        let d = self.diagnostics;
        if self.intent_foreign(intent) {
            let m = self.with_diagnostics(
                Diagnostics {
                    switch_intents_cancelled_identity: metrics::bumped(
                        d.switch_intents_cancelled_identity,
                    ),
                    ..d
                },
            );
            if self.task(intent.target).identity_generation == intent.target_generation {
                (m.restored(intent.target), false)
            } else {
                (m, false)
            }
        } else if self.intent_stale(intent) {
            (
                self.with_diagnostics(
                    Diagnostics {
                        switch_intents_cancelled_stale: metrics::bumped(
                            d.switch_intents_cancelled_stale,
                        ),
                        switch_race_recoveries: metrics::bumped(d.switch_race_recoveries),
                        ..d
                    },
                ).restored(intent.target),
                false,
            )
        } else {
            (
                SchedModel {
                    pending_switch: Some(intent),
                    diagnostics: Diagnostics {
                        switch_intents_committed: metrics::bumped(d.switch_intents_committed),
                        ..d
                    },
                    ..self
                },
                true,
            )
        }
    }

    pub open spec fn pending_consumed(self) -> SchedModel {
        match self.pending_switch {
            Some(_) => SchedModel {
                pending_switch: None,
                diagnostics: Diagnostics {
                    switch_intents_completed: metrics::bumped(
                        self.diagnostics.switch_intents_completed,
                    ),
                    ..self.diagnostics
                },
                ..self
            },
            None => self,
        }
    }

    /// An interrupt has already switched back to `previous`: the detached `next` is
    /// put back.
    pub open spec fn switch_recovered(self, previous: usize, next: usize) -> (SchedModel, bool) {
        if self.current == previous && self.task(previous).state == State::Running {
            (
                self.with_diagnostics(
                    Diagnostics {
                        switch_race_recoveries: metrics::bumped(
                            self.diagnostics.switch_race_recoveries,
                        ),
                        ..self.diagnostics
                    },
                ).restored(next),
                true,
            )
        } else {
            (self, false)
        }
    }

    /// A direct switch from `previous` to `next`.
    pub open spec fn switched(self, previous: usize, next: usize, now: u64) -> SchedModel {
        if previous == next {
            self.with_task(next, Tcb { state: State::Running, ..self.task(next) })
        } else {
            let a = self.accounted(previous, next, now);
            let b = a.with_task(next, Tcb { state: State::Running, ..a.task(next) });
            SchedModel {
                current: next,
                diagnostics: Diagnostics {
                    context_switches: metrics::bumped(b.diagnostics.context_switches),
                    ..b.diagnostics
                },
                ..b
            }
        }
    }

    // ---- Run policy --------------------------------------------------------
    /// `slot` starts a new policy lifetime at `now`: a fresh quota, and no throttle.
    pub open spec fn with_run_policy(self, slot: usize, policy: RunPolicy, now: u64) -> SchedModel {
        let t = self.task(slot);
        let fresh = BudgetState::fresh(policy, now);
        let t2 = Tcb {
            run_policy: policy,
            budget: if t.state == State::Running {
                fresh.dispatched(now)
            } else {
                fresh
            },
            ..t
        };
        if t.state == State::Ready && self.ready_queued(slot) {
            self.ready_removed(slot).with_task(slot, t2).pushed(slot)
        } else if t.state == State::Throttled {
            self.with_task(slot, t2).made_ready(slot, now)
        } else {
            self.with_task(slot, t2)
        }
    }

    // ---- Coherence ---------------------------------------------------------
    pub(crate) proof fn lemma_restored(self, slot: usize)
        requires
            self.coherent(),
            slot < TASK_SLOT_COUNT,
        ensures
            self.restored(slot).coherent(),
            self.tidy() ==> self.restored(slot).tidy(),
            self.task(slot).state == State::Ready && !self.ready_queued(slot) ==> self.loose(slot),
    {
        assert(self.tasks[slot as int].priority < 32);
        let key = self.ready_key(slot);
        let n = self.restored(slot);
        if self.task(slot).state == State::Ready && !self.ready_queued(slot) {
            assert(self.loose(slot)) by {
                assert forall|q: int| 0 <= q < 96 implies !(#[trigger] self.queues[q]).contains(
                    slot,
                ) by {
                    if self.queues[q].contains(slot) {
                        assert(q == self.home(slot));
                    }
                }
            }
            if !self.is_idle(slot) {
                self.lemma_pushed_coherent(slot);
                assert(n.tasks == self.tasks);
                self.lemma_tidy_frame(n);
                if self.tidy() && self.policy is None {
                    links::lemma_appended(self.queues[key], slot);
                    assert forall|q: int| 0 <= q < 32 implies !(#[trigger] n.queues[q]).contains(
                        IDLE_SLOT,
                    ) by {
                        assert(!self.queues[q].contains(IDLE_SLOT));
                    }
                }
            }
        }
    }

    pub(crate) proof fn lemma_epilogue_choice(self, now: u64)
        requires
            self.coherent(),
        ensures
            self.epilogue_choice(now).0.coherent(),
            self.tidy() ==> self.epilogue_choice(now).0.tidy(),
    {
        self.lemma_popped_coherent();
        self.lemma_popped_tidy();
        self.lemma_rescheduled(self.time_slice_pending, now);
    }
}

impl Sched {
    /// Chooses what the end of an interrupt at `interrupt_depth` switches to.
    pub fn take_irq_epilogue_target(&mut self, interrupt_depth: u16, now: u64) -> (r: Option<
        (usize, usize),
    >)
        requires
            old(self).wf(),
            old(self)@.coherent(),
        ensures
            final(self).wf(),
            final(self)@.coherent(),
            (final(self)@, r) == old(self)@.irq_epilogue(interrupt_depth, now),
    {
        let ghost m0 = self@;
        if !self.started || interrupt_depth != 0 {
            return None;
        }
        let current: usize = self.current;
        proof {
            m0.lemma_epilogue_choice(now);
            assert(m0.tasks[current as int] == self.tasks@[current as int].unlinked());
        }
        let time_slice = self.time_slice_pending;
        let current_priority: u8 = self.tasks[current].priority;
        let target = self.take_epilogue_target(now);
        let ghost m1 = self@;
        match target {
            Some((previous, next)) => {
                self.count_irq_switch(time_slice, current_priority, next);
                proof {
                    m1.lemma_coherent_frame(self@);
                }
            },
            None => {},
        }
        target
    }

    fn take_epilogue_target(&mut self, now: u64) -> (r: Option<(usize, usize)>)
        requires
            old(self).wf(),
            old(self)@.coherent(),
        ensures
            final(self).wf(),
            final(self)@.coherent(),
            (final(self)@, r) == old(self)@.epilogue_choice(now),
            r is Some ==> (r->0).0 == old(self)@.current && (r->0).1 < TASK_SLOT_COUNT,
    {
        let ghost m0 = self@;
        let current: usize = self.current;
        proof {
            m0.lemma_epilogue_choice(now);
            assert(m0.tasks[current as int] == self.tasks@[current as int].unlinked());
        }
        if self.tasks[current].state != State::Running {
            let next: usize = self.ready_pop_or_idle();
            if next == NIL {
                None
            } else {
                Some((current, next))
            }
        } else {
            self.take_reschedule_target(self.time_slice_pending, now)
        }
    }

    /// The task that the end of a trap would switch to, if any.
    fn next_after_trap(&self) -> (r: Option<usize>)
        requires
            self.wf(),
            self@.coherent(),
        ensures
            forall|now: u64|
                (#[trigger] self@.trap_choice(now)).1 == (match r {
                    Some(next) => Some((self@.current, next)),
                    None => None,
                }),
    {
        let current: usize = self.current;
        assert(self@.tasks[current as int] == self.tasks@[current as int].unlinked());
        match self.pending_switch {
            Some(intent) => {
                return Some(intent.target);
            },
            None => {},
        }
        let next: usize = self.next_ready();
        if self.tasks[current].state == State::Running {
            if self.takeover_is_due(self.time_slice_pending) {
                Some(next)
            } else {
                None
            }
        } else if next == NIL && self.policy.is_none() {
            Some(IDLE_SLOT)
        } else if next == NIL {
            None
        } else {
            Some(next)
        }
    }

    /// Whether the switch that the end of a trap calls for has a frame to resume from.
    pub fn trap_target_is_saved(&self, frame: usize, interrupt_depth: u16) -> (r: bool)
        requires
            self.wf(),
            self@.coherent(),
        ensures
            forall|now: u64| r == #[trigger] self@.trap_target_saved(frame, interrupt_depth, now),
    {
        let ghost m0 = self@;
        if !self.started || interrupt_depth != 0 {
            return true;
        }
        let current: usize = self.current;
        match self.next_after_trap() {
            Some(next) => {
                if next >= TASK_SLOT_COUNT {
                    return false;
                }
                proof {
                    assert(m0.tasks[current as int] == self.tasks@[current as int].unlinked());
                    assert(m0.tasks[next as int] == self.tasks@[next as int].unlinked());
                    m0.lemma_popped_coherent();
                    assert forall|now: u64| #[trigger]
                        m0.trap_choice(now).0.resume_frame(current, next, frame)
                            == m0.resume_frame(current, next, frame) by {
                        m0.lemma_rescheduled(m0.time_slice_pending, now);
                    }
                }
                if current == next && self.tasks[current].state != State::Free {
                    frame != 0
                } else {
                    self.tasks[next].saved_frame != 0
                }
            },
            None => true,
        }
    }

    /// Carries out the switch that the end of a trap calls for and returns the frame
    /// to resume from.
    pub fn schedule_from_trap(&mut self, frame: usize, interrupt_depth: u16, now: u64) -> (r: usize)
        requires
            old(self).wf(),
            old(self)@.coherent(),
            old(self)@.trap_target_saved(frame, interrupt_depth, now),
        ensures
            final(self).wf(),
            (final(self)@, r) == old(self)@.trapped(frame, interrupt_depth, now),
    {
        let ghost m0 = self@;
        if !self.started || interrupt_depth != 0 {
            return frame;
        }
        let current: usize = self.current;
        assert(m0.tasks[current as int] == self.tasks@[current as int].unlinked());
        let time_slice = self.time_slice_pending;
        let current_priority: u8 = self.tasks[current].priority;
        let target = match self.pending_switch {
            Some(intent) => {
                self.consume_pending_switch();
                Some((current, intent.target))
            },
            None => self.take_epilogue_target(now),
        };
        let ghost m1 = self@;
        assert((m1, target) == m0.trap_choice(now));
        let (previous, next) = match target {
            Some(pair) => pair,
            None => {
                return frame;
            },
        };
        let next_frame: usize = self.switch_frames(previous, next, frame, now);
        self.count_irq_switch(time_slice, current_priority, next);
        next_frame
    }

    /// Saves `frame` for `previous`, makes `next` run and takes its saved frame.
    fn switch_frames(&mut self, previous: usize, next: usize, frame: usize, now: u64) -> (r: usize)
        requires
            old(self).wf(),
            previous < TASK_SLOT_COUNT,
            next < TASK_SLOT_COUNT,
        ensures
            final(self).wf(),
            final(self)@ == old(self)@.trap_switched(previous, next, frame, now),
            r == old(self)@.resume_frame(previous, next, frame),
    {
        let ghost m1 = self@;
        self.account_switch(previous, next, now);
        let ghost a = self@;
        proof {
            assert(a.tasks[previous as int] == self.tasks@[previous as int].unlinked());
            assert(a.tasks[previous as int].priority < 32);
        }
        if self.tasks[previous].state != State::Free {
            let mut block = self.tasks[previous];
            block.saved_frame = frame;
            proof {
                a.lemma_fits_with_task(previous, block.unlinked());
            }
            self.set_task(previous, block);
        }
        let ghost b = self@;
        proof {
            assert(b.tasks[next as int] == self.tasks@[next as int].unlinked());
            assert(b.tasks[next as int].priority < 32);
        }
        let mut block = self.tasks[next];
        let next_frame: usize = block.saved_frame;
        block.saved_frame = 0;
        block.state = State::Running;
        block.resume_generation = block.resume_generation.wrapping_add(1);
        proof {
            b.lemma_fits_with_task(next, block.unlinked());
        }
        self.set_task(next, block);
        self.current = next;
        self.diagnostics.context_switches = bump(self.diagnostics.context_switches);
        assert(self@ =~= m1.trap_switched(previous, next, frame, now));
        next_frame
    }

    fn count_irq_switch(&mut self, time_slice: bool, priority: u8, next: usize)
        requires
            old(self).wf(),
            next < TASK_SLOT_COUNT,
        ensures
            final(self).wf(),
            final(self)@ == old(self)@.irq_switch_counted(time_slice, priority, next),
    {
        assert(self@.tasks[next as int] == self.tasks@[next as int].unlinked());
        self.diagnostics.irq_preemptions = bump(self.diagnostics.irq_preemptions);
        if time_slice && self.tasks[next].priority == priority {
            self.diagnostics.time_slice_preemptions = bump(self.diagnostics.time_slice_preemptions);
        }
        self.time_slice_pending = false;
    }

    /// Whether a task is in its ready queue.
    fn is_ready_queued(&self, slot: usize) -> (r: bool)
        requires
            self.wf(),
            slot < TASK_SLOT_COUNT,
        ensures
            r == self@.ready_queued(slot),
    {
        let level: usize = self.ready_priority(slot);
        assert(self@.queues[level as int] == self.linkage().list(level as int));
        links::is_member(&self.tasks, self.ready_head[level], self.ready_tail[level], slot)
    }

    /// Puts a detached ready task back into its ready queue.
    fn restore_target(&mut self, slot: usize)
        requires
            old(self).wf(),
            old(self)@.coherent(),
            slot < TASK_SLOT_COUNT,
        ensures
            final(self).wf(),
            final(self)@.coherent(),
            final(self)@ == old(self)@.restored(slot),
    {
        proof {
            self@.lemma_restored(slot);
            assert(self@.tasks[slot as int] == self.tasks@[slot as int].unlinked());
        }
        if self.tasks[slot].state == State::Ready && !self.is_idle_slot(slot)
            && !self.is_ready_queued(slot) {
            self.ready_push(slot);
        }
    }

    /// Withdraws a switch that an interrupt has already served, and tells whether it
    /// was.
    pub fn recover_completed_switch_request(&mut self, previous: usize, next: usize) -> (r: bool)
        requires
            old(self).wf(),
            old(self)@.coherent(),
            previous < TASK_SLOT_COUNT,
            next < TASK_SLOT_COUNT,
        ensures
            final(self).wf(),
            final(self)@.coherent(),
            (final(self)@, r) == old(self)@.switch_recovered(previous, next),
    {
        let ghost m0 = self@;
        assert(m0.tasks[previous as int] == self.tasks@[previous as int].unlinked());
        if self.current != previous || self.tasks[previous].state != State::Running {
            return false;
        }
        self.diagnostics.switch_race_recoveries = bump(self.diagnostics.switch_race_recoveries);
        proof {
            m0.lemma_coherent_frame(self@);
        }
        self.restore_target(next);
        true
    }

    /// Records a request to switch between two tasks as they are now.
    pub fn prepare_switch_intent(&mut self, source: usize, target: usize) -> (r: SwitchIntent)
        requires
            old(self).wf(),
            old(self)@.coherent(),
            source < TASK_SLOT_COUNT,
            target < TASK_SLOT_COUNT,
        ensures
            final(self).wf(),
            final(self)@.coherent(),
            final(self)@ == old(self)@.intent_counted(),
            r == old(self)@.intent(source, target),
    {
        let ghost m0 = self@;
        proof {
            assert(m0.tasks[source as int] == self.tasks@[source as int].unlinked());
            assert(m0.tasks[target as int] == self.tasks@[target as int].unlinked());
        }
        self.diagnostics.switch_intents_created = bump(self.diagnostics.switch_intents_created);
        proof {
            m0.lemma_coherent_frame(self@);
        }
        SwitchIntent {
            source,
            source_generation: self.tasks[source].identity_generation,
            source_resume: self.tasks[source].resume_generation,
            target,
            target_generation: self.tasks[target].identity_generation,
        }
    }

    /// Whether a recorded request still stands: its slots have not changed hands, and its
    /// source has not run since.
    pub fn switch_intent_stands(&self, intent: SwitchIntent) -> (r: bool)
        requires
            self.wf(),
            intent.source < TASK_SLOT_COUNT,
            intent.target < TASK_SLOT_COUNT,
        ensures
            r == (!self@.intent_foreign(intent) && !self@.intent_stale(intent)),
    {
        assert(self@.tasks[intent.source as int] == self.tasks@[intent.source as int].unlinked());
        assert(self@.tasks[intent.target as int] == self.tasks@[intent.target as int].unlinked());
        self.tasks[intent.source].identity_generation == intent.source_generation
            && self.tasks[intent.target].identity_generation == intent.target_generation
            && self.current == intent.source && self.tasks[intent.source].state != State::Running
            && self.tasks[intent.source].resume_generation == intent.source_resume
    }

    /// Makes a recorded request pending, unless things have moved on meanwhile.
    pub fn commit_switch_intent(&mut self, intent: SwitchIntent) -> (r: bool)
        requires
            old(self).wf(),
            old(self)@.coherent(),
            intent.source < TASK_SLOT_COUNT,
            intent.target < TASK_SLOT_COUNT,
            !old(self)@.intent_foreign(intent) && !old(self)@.intent_stale(intent) ==> old(
                self,
            )@.pending_switch is None,
        ensures
            final(self).wf(),
            final(self)@.coherent(),
            (final(self)@, r) == old(self)@.intent_committed(intent),
    {
        let ghost m0 = self@;
        proof {
            assert(m0.tasks[intent.source as int] == self.tasks@[intent.source as int].unlinked());
            assert(m0.tasks[intent.target as int] == self.tasks@[intent.target as int].unlinked());
        }
        let target_matches = self.tasks[intent.target].identity_generation
            == intent.target_generation;
        if self.tasks[intent.source].identity_generation != intent.source_generation
            || !target_matches {
            self.diagnostics.switch_intents_cancelled_identity = bump(
                self.diagnostics.switch_intents_cancelled_identity,
            );
            proof {
                m0.lemma_coherent_frame(self@);
            }
            if target_matches {
                self.restore_target(intent.target);
            }
            return false;
        }
        if self.current != intent.source || self.tasks[intent.source].state == State::Running
            || self.tasks[intent.source].resume_generation != intent.source_resume {
            self.diagnostics.switch_intents_cancelled_stale = bump(
                self.diagnostics.switch_intents_cancelled_stale,
            );
            self.diagnostics.switch_race_recoveries = bump(self.diagnostics.switch_race_recoveries);
            proof {
                m0.lemma_coherent_frame(self@);
            }
            self.restore_target(intent.target);
            return false;
        }
        self.pending_switch = Some(intent);
        self.diagnostics.switch_intents_committed = bump(self.diagnostics.switch_intents_committed);
        proof {
            m0.lemma_coherent_frame(self@);
        }
        true
    }

    /// Takes the pending request, which no later trap will see again.
    pub fn consume_pending_switch(&mut self) -> (r: Option<(usize, usize)>)
        requires
            old(self).wf(),
        ensures
            final(self).wf(),
            final(self)@ == old(self)@.pending_consumed(),
            r == (match old(self)@.pending_switch {
                Some(intent) => Some((intent.source, intent.target)),
                None => None,
            }),
    {
        match self.pending_switch {
            Some(intent) => {
                self.pending_switch = None;
                self.diagnostics.switch_intents_completed = bump(
                    self.diagnostics.switch_intents_completed,
                );
                Some((intent.source, intent.target))
            },
            None => None,
        }
    }

    /// Makes `next` the running task in place of `previous`, without a trap.
    pub fn complete_switch(&mut self, previous: usize, next: usize, now: u64)
        requires
            old(self).wf(),
            previous < TASK_SLOT_COUNT,
            next < TASK_SLOT_COUNT,
        ensures
            final(self).wf(),
            final(self)@ == old(self)@.switched(previous, next, now),
    {
        let ghost m0 = self@;
        if previous != next {
            self.account_switch(previous, next, now);
        }
        let ghost a = self@;
        proof {
            assert(a.tasks[next as int] == self.tasks@[next as int].unlinked());
            assert(a.tasks[next as int].priority < 32);
        }
        let mut block = self.tasks[next];
        block.state = State::Running;
        proof {
            a.lemma_fits_with_task(next, block.unlinked());
        }
        self.set_task(next, block);
        if previous != next {
            self.current = next;
            self.diagnostics.context_switches = bump(self.diagnostics.context_switches);
        }
        assert(self@ =~= m0.switched(previous, next, now));
    }

    /// Keeps a stack for release once its task no longer runs on it.
    pub fn retire_stack(&mut self, stack: usize)
        requires
            old(self).wf(),
            stack != 0 ==> old(self)@.retired.len() < TASK_SLOT_COUNT,
        ensures
            final(self).wf(),
            final(self)@ == (if stack == 0 {
                old(self)@
            } else {
                SchedModel { retired: old(self)@.retired.push(stack), ..old(self)@ }
            }),
    {
        if stack != 0 {
            let ghost m0 = self@;
            let at: usize = self.retired_count;
            self.retired_stacks[at] = stack;
            self.retired_count = at + 1;
            assert(self@.retired =~= m0.retired.push(stack));
        }
    }

    /// Gives a task a new policy, with a fresh quota and without its old throttle.
    pub fn set_run_policy(&mut self, slot: usize, policy: RunPolicy, now: u64)
        requires
            old(self).wf(),
            old(self)@.coherent(),
            slot < TASK_SLOT_COUNT,
        ensures
            final(self).wf(),
            final(self)@.coherent(),
            final(self)@ == old(self)@.with_run_policy(slot, policy, now),
    {
        let ghost m0 = self@;
        proof {
            assert(m0.tasks[slot as int] == self.tasks@[slot as int].unlinked());
            assert(m0.tasks[slot as int].base_priority < 32);
            assert(m0.tasks[slot as int].priority < 32);
            m0.lemma_ready_queued_is_ready(slot);
        }
        let was_ready = self.tasks[slot].state == State::Ready;
        let was_throttled = self.tasks[slot].state == State::Throttled;
        let mut queued = false;
        if was_ready {
            queued = self.ready_remove(slot);
            proof {
                m0.lemma_unqueued_coherent(m0.ready_key(slot), slot);
                if !queued {
                    let key = m0.ready_key(slot);
                    assert(m0.queues.update(key, m0.queues[key]) =~= m0.queues);
                }
            }
        }
        let ghost m1 = self@;
        let mut block = self.tasks[slot];
        block.run_policy = policy;
        block.budget = BudgetState::for_policy(policy, now);
        if block.state == State::Running {
            block.budget.on_dispatch(now);
        }
        proof {
            assert(m1.tasks[slot as int] == self.tasks@[slot as int].unlinked());
            m1.lemma_tweak_coherent(slot, block.unlinked());
        }
        self.set_task(slot, block);
        let ghost m2 = self@;
        if queued {
            proof {
                m2.lemma_pushed_coherent(slot);
            }
            self.ready_push(slot);
        } else if was_throttled {
            proof {
                m0.lemma_unqueued_when_idle_state(slot);
                m2.lemma_made_ready_coherent(slot, now);
            }
            self.make_ready(slot, now);
        }
        assert(self@ =~= m0.with_run_policy(slot, policy, now));
    }
}

} // verus!
