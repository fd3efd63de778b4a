//! The ordered-event poller: feeds newly finalized units to the processor one at a time.
//!
//! The executor owns the execution cursor and a queue of units that a poll has handed out
//! and the processor has not yet been given. It never asks for a second execution before
//! the first has been reported back.

use crate::events::payload_count;
use crate::poller::{
    all_decoded, append_only, collect_units, collected, cursor_after, decoded_log, decoded_logs,
    handed_out, lemma_polls_keep_payload_order, poll_cursor, poll_fresh, units_of, DecodeFailure,
    DecodePolicy, NewPrograms,
};
use vstd::prelude::*;

verus! {

/// How long the executor sleeps after an activation before it looks at the log again.
pub const POLL_DELAY_MILLIS: u64 = 200;

/// Where the executor stands between two events.
#[derive(Clone, Copy, Debug, PartialEq, Eq, Structural)]
pub enum ExecutorPhase {
    /// Not yet activated.
    Idle,
    /// A snapshot has been asked for.
    Fetching,
    /// One unit is at the processor.
    Executing,
    /// Waiting for the timer.
    Sleeping,
    /// A decode or execution failure has stopped the executor for good.
    Halted,
}

/// Why the executor halted.
#[derive(Clone, Copy, Debug, PartialEq, Eq, Structural)]
pub enum HaltReason {
    /// A payload was malformed and the policy halts on that.
    Decode(DecodeFailure),
    /// The processor failed a unit.
    Execution,
}

/// What the caller reports to the executor.
#[derive(Debug, PartialEq, Eq)]
pub enum ExecutorEvent<U> {
    /// The executor is activated: the first time, or by the timer.
    Wake,
    /// The snapshot asked for, flattened and decoded: one entry per payload, `None`
    /// where the payload was malformed.
    Decoded(Vec<Option<U>>),
    /// The processor has finished the unit it was given.
    Executed { succeeded: bool },
}

/// What the executor asks the caller to do next.
#[derive(Debug, PartialEq, Eq)]
pub enum ExecutorAction<U> {
    /// Nothing: the event did not apply in this phase.
    Idle,
    /// Take a snapshot of the finalized events, flatten and decode it, and report it.
    Fetch,
    /// Hand this unit to the processor and report how it ended.
    Execute(U),
    /// Report `Wake` after this many milliseconds.
    Sleep { millis: u64 },
    /// Stop: the execution path has failed.
    Halt(HaltReason),
}

/// An event as a mathematical value.
pub enum ExecutorEventView<U> {
    Wake,
    Decoded(Seq<Option<U>>),
    Executed { succeeded: bool },
}

impl<U> View for ExecutorEvent<U> {
    type V = ExecutorEventView<U>;

    open spec fn view(&self) -> ExecutorEventView<U> {
        match *self {
            ExecutorEvent::Wake => ExecutorEventView::Wake,
            ExecutorEvent::Decoded(decoded) => ExecutorEventView::Decoded(decoded@),
            ExecutorEvent::Executed { succeeded } => ExecutorEventView::Executed { succeeded },
        }
    }
}

/// The executor as a mathematical value.
pub struct ExecutorState<U> {
    /// How many units polls have handed out.
    pub cursor: nat,
    /// Units handed out and not yet given to the processor, oldest first.
    pub pending: Seq<U>,
    pub phase: ExecutorPhase,
    pub policy: DecodePolicy,
}

/// The state of an executor that has not been activated.
pub open spec fn executor_start<U>(policy: DecodePolicy) -> ExecutorState<U> {
    ExecutorState { cursor: 0, pending: Seq::empty(), phase: ExecutorPhase::Idle, policy }
}

/// Units wait only while one is at the processor or after a halt, and none waits that the
/// cursor has not counted.
pub open spec fn executor_wf<U>(s: ExecutorState<U>) -> bool {
    &&& s.pending.len() <= s.cursor
    &&& (s.phase == ExecutorPhase::Executing || s.phase == ExecutorPhase::Halted
        || s.pending.len() == 0)
}

/// The transition on a decoded snapshot while fetching.
pub open spec fn executor_on_decoded<U>(s: ExecutorState<U>, decoded: Seq<Option<U>>) -> (
    ExecutorState<U>,
    ExecutorAction<U>,
) {
    match collected(decoded, s.policy) {
        Err(index) => (
            ExecutorState { phase: ExecutorPhase::Halted, ..s },
            ExecutorAction::Halt(HaltReason::Decode(DecodeFailure { index: index as usize })),
        ),
        Ok(units) => match poll_fresh(s.cursor, units) {
            Some(fresh) => (
                ExecutorState {
                    cursor: units.len(),
                    pending: fresh.drop_first(),
                    phase: ExecutorPhase::Executing,
                    policy: s.policy,
                },
                ExecutorAction::Execute(fresh.first()),
            ),
            None => (
                ExecutorState { phase: ExecutorPhase::Sleeping, ..s },
                ExecutorAction::Sleep { millis: POLL_DELAY_MILLIS },
            ),
        },
    }
}

/// The transition function: the state and the action that follow a state and an event.
pub open spec fn executor_step<U>(s: ExecutorState<U>, event: ExecutorEventView<U>) -> (
    ExecutorState<U>,
    ExecutorAction<U>,
) {
    match (s.phase, event) {
        (ExecutorPhase::Idle, ExecutorEventView::Wake) | (
            ExecutorPhase::Sleeping,
            ExecutorEventView::Wake,
        ) => (ExecutorState { phase: ExecutorPhase::Fetching, ..s }, ExecutorAction::Fetch),
        (ExecutorPhase::Fetching, ExecutorEventView::Decoded(decoded)) => executor_on_decoded(
            s,
            decoded,
        ),
        (ExecutorPhase::Executing, ExecutorEventView::Executed { succeeded }) => {
            if !succeeded {
                (
                    ExecutorState { phase: ExecutorPhase::Halted, ..s },
                    ExecutorAction::Halt(HaltReason::Execution),
                )
            } else if s.pending.len() > 0 {
                (
                    ExecutorState { pending: s.pending.drop_first(), ..s },
                    ExecutorAction::Execute(s.pending.first()),
                )
            } else {
                (
                    ExecutorState { phase: ExecutorPhase::Sleeping, ..s },
                    ExecutorAction::Sleep { millis: POLL_DELAY_MILLIS },
                )
            }
        },
        _ => (s, ExecutorAction::Idle),
    }
}

/// The ordered-event poller.
pub struct Executor<U> {
    new_programs: NewPrograms,
    pending: Vec<U>,
    phase: ExecutorPhase,
    policy: DecodePolicy,
}

impl<U> View for Executor<U> {
    type V = ExecutorState<U>;

    closed spec fn view(&self) -> ExecutorState<U> {
        ExecutorState {
            cursor: self.new_programs@,
            pending: self.pending@,
            phase: self.phase,
            policy: self.policy,
        }
    }
}

impl<U> Executor<U> {
    /// An executor that halts on the first malformed payload.
    pub fn new() -> (executor: Executor<U>)
        ensures
            executor@ == executor_start::<U>(DecodePolicy::Halt),
    {
        Executor::with_policy(DecodePolicy::Halt)
    }

    /// An executor with the given policy on malformed payloads.
    pub fn with_policy(policy: DecodePolicy) -> (executor: Executor<U>)
        ensures
            executor@ == executor_start::<U>(policy),
    {
        Executor {
            new_programs: NewPrograms::new(),
            pending: Vec::new(),
            phase: ExecutorPhase::Idle,
            policy,
        }
    }

    /// Takes one event and answers with the next action, as `executor_step` says.
    pub fn poll(&mut self, event: ExecutorEvent<U>) -> (action: ExecutorAction<U>)
        ensures
            (final(self)@, action) == executor_step(old(self)@, event@),
            executor_wf(old(self)@) ==> executor_wf(final(self)@),
    {
        match event {
            ExecutorEvent::Wake => {
                match self.phase {
                    ExecutorPhase::Idle | ExecutorPhase::Sleeping => {
                        self.phase = ExecutorPhase::Fetching;
                        ExecutorAction::Fetch
                    },
                    _ => ExecutorAction::Idle,
                }
            },
            ExecutorEvent::Decoded(decoded) => {
                match self.phase {
                    ExecutorPhase::Fetching => self.on_decoded(decoded),
                    _ => ExecutorAction::Idle,
                }
            },
            ExecutorEvent::Executed { succeeded } => {
                match self.phase {
                    ExecutorPhase::Executing => {
                        if !succeeded {
                            self.phase = ExecutorPhase::Halted;
                            ExecutorAction::Halt(HaltReason::Execution)
                        } else if self.pending.len() > 0 {
                            let unit = self.pending.remove(0);
                            assert(self.pending@ =~= old(self).pending@.drop_first());
                            ExecutorAction::Execute(unit)
                        } else {
                            self.phase = ExecutorPhase::Sleeping;
                            ExecutorAction::Sleep { millis: POLL_DELAY_MILLIS }
                        }
                    },
                    _ => ExecutorAction::Idle,
                }
            },
        }
    }

    fn on_decoded(&mut self, decoded: Vec<Option<U>>) -> (action: ExecutorAction<U>)
        requires
            old(self).phase == ExecutorPhase::Fetching,
        ensures
            (final(self)@, action) == executor_on_decoded(old(self)@, decoded@),
            executor_wf(old(self)@) ==> executor_wf(final(self)@),
    {
        match collect_units(decoded, self.policy) {
            Err(failure) => {
                self.phase = ExecutorPhase::Halted;
                ExecutorAction::Halt(HaltReason::Decode(failure))
            },
            Ok(units) => {
                match self.new_programs.poll(units) {
                    Some(fresh) => {
                        let mut fresh = fresh;
                        let unit = fresh.remove(0);
                        self.pending = fresh;
                        self.phase = ExecutorPhase::Executing;
                        ExecutorAction::Execute(unit)
                    },
                    None => {
                        self.phase = ExecutorPhase::Sleeping;
                        ExecutorAction::Sleep { millis: POLL_DELAY_MILLIS }
                    },
                }
            },
        }
    }

    /// How many units polls have handed out so far.
    pub fn cursor(&self) -> (cursor: usize)
        ensures
            cursor == self@.cursor,
    {
        self.new_programs.program_index()
    }

    /// Where the executor stands.
    pub fn phase(&self) -> (phase: ExecutorPhase)
        ensures
            phase == self@.phase,
    {
        self.phase
    }

    /// How many units wait to be given to the processor.
    pub fn pending(&self) -> (count: usize)
        ensures
            count == self@.pending.len(),
    {
        self.pending.len()
    }
}

/// The run of the executor over a sequence of events: the state it ends in and the
/// actions it answered with, one per event.
pub open spec fn executor_run<U>(s: ExecutorState<U>, events: Seq<ExecutorEventView<U>>) -> (
    ExecutorState<U>,
    Seq<ExecutorAction<U>>,
)
    decreases events.len(),
{
    if events.len() == 0 {
        (s, Seq::empty())
    } else {
        let (before, actions) = executor_run(s, events.drop_last());
        let (after, action) = executor_step(before, events.last());
        (after, actions.push(action))
    }
}

/// The units that a sequence of actions gives to the processor, in order.
pub open spec fn dispatched<U>(actions: Seq<ExecutorAction<U>>) -> Seq<U>
    decreases actions.len(),
{
    if actions.len() == 0 {
        Seq::empty()
    } else {
        match actions.last() {
            ExecutorAction::Execute(unit) => dispatched(actions.drop_last()).push(unit),
            _ => dispatched(actions.drop_last()),
        }
    }
}

/// `count` reports of a successful execution.
pub open spec fn completions<U>(count: nat) -> Seq<ExecutorEventView<U>> {
    Seq::new(count, |i: int| ExecutorEventView::Executed { succeeded: true })
}

/// What a caller that follows the protocol reports during one activation against a log
/// that decodes in full: the wake, the decoded log, and one successful execution for each
/// unit beyond the cursor.
pub open spec fn activation<U>(cursor: nat, log: Seq<U>) -> Seq<ExecutorEventView<U>> {
    seq![
        ExecutorEventView::Wake,
        ExecutorEventView::Decoded(log.map_values(|unit: U| Some(unit))),
    ] + completions(
        if log.len() > cursor {
            (log.len() - cursor) as nat
        } else {
            0
        },
    )
}

/// The events of one activation after another, one per snapshot of the log.
pub open spec fn activations<U>(cursor: nat, logs: Seq<Seq<U>>) -> Seq<ExecutorEventView<U>>
    decreases logs.len(),
{
    if logs.len() == 0 {
        Seq::empty()
    } else {
        activations(cursor, logs.drop_last()) + activation(
            cursor_after(cursor, logs.drop_last()),
            logs.last(),
        )
    }
}

/// A run that is extended by one event takes one more step.
pub proof fn lemma_executor_run_push<U>(
    s: ExecutorState<U>,
    events: Seq<ExecutorEventView<U>>,
    event: ExecutorEventView<U>,
)
    ensures
        executor_run(s, events.push(event)).0 == executor_step(
            executor_run(s, events).0,
            event,
        ).0,
        executor_run(s, events.push(event)).1 == executor_run(s, events).1.push(
            executor_step(executor_run(s, events).0, event).1,
        ),
{
    assert(events.push(event).drop_last() =~= events);
}

/// The units dispatched grow by the unit of an `Execute` and by nothing else.
pub proof fn lemma_dispatched_push<U>(actions: Seq<ExecutorAction<U>>, action: ExecutorAction<U>)
    ensures
        dispatched(actions.push(action)) == match action {
            ExecutorAction::Execute(unit) => dispatched(actions).push(unit),
            _ => dispatched(actions),
        },
{
    assert(actions.push(action).drop_last() =~= actions);
}

/// A run over two stretches of events is the run over the first followed by the run over
/// the second from where the first ended.
pub proof fn lemma_executor_run_concat<U>(
    s: ExecutorState<U>,
    first: Seq<ExecutorEventView<U>>,
    second: Seq<ExecutorEventView<U>>,
)
    ensures
        executor_run(s, first + second).0 == executor_run(executor_run(s, first).0, second).0,
        executor_run(s, first + second).1 == executor_run(s, first).1 + executor_run(
            executor_run(s, first).0,
            second,
        ).1,
    decreases second.len(),
{
    let middle = executor_run(s, first).0;
    if second.len() == 0 {
        assert(first + second =~= first);
        assert(executor_run(s, first).1 + executor_run(middle, second).1 =~= executor_run(
            s,
            first,
        ).1);
    } else {
        lemma_executor_run_concat(s, first, second.drop_last());
        assert((first + second).drop_last() =~= first + second.drop_last());
        assert((first + second).last() == second.last());
        let (before, actions) = executor_run(middle, second.drop_last());
        let (after, action) = executor_step(before, second.last());
        assert(executor_run(s, first + second).1 =~= executor_run(s, first).1 + actions.push(
            action,
        ));
    }
}

/// The units dispatched over two stretches of actions are those of the first followed by
/// those of the second.
pub proof fn lemma_dispatched_concat<U>(
    first: Seq<ExecutorAction<U>>,
    second: Seq<ExecutorAction<U>>,
)
    ensures
        dispatched(first + second) == dispatched(first) + dispatched(second),
    decreases second.len(),
{
    if second.len() == 0 {
        assert(first + second =~= first);
        assert(dispatched(first) + dispatched(second) =~= dispatched(first));
    } else {
        lemma_dispatched_concat(first, second.drop_last());
        assert((first + second).drop_last() =~= first + second.drop_last());
        assert((first + second).last() == second.last());
        match second.last() {
            ExecutorAction::Execute(unit) => {
                assert(dispatched(first + second) =~= dispatched(first) + dispatched(second));
            },
            _ => {},
        }
    }
}

/// A log whose every entry decoded yields its entries as the units.
pub proof fn lemma_units_of_decoded_log<U>(log: Seq<U>)
    ensures
        all_decoded(log.map_values(|unit: U| Some(unit))),
        units_of(log.map_values(|unit: U| Some(unit))) == log,
    decreases log.len(),
{
    let decoded = log.map_values(|unit: U| Some(unit));
    if log.len() > 0 {
        lemma_units_of_decoded_log(log.drop_last());
        assert(decoded.drop_last() =~= log.drop_last().map_values(|unit: U| Some(unit)));
        assert(decoded.last() == Some(log.last()));
        assert(units_of(decoded) =~= log);
    } else {
        assert(units_of(decoded) =~= log);
    }
}

/// While units wait, each report of a successful execution sends the next one to the
/// processor, oldest first.
pub proof fn lemma_completions_drain_pending<U>(s: ExecutorState<U>, count: nat)
    requires
        s.phase == ExecutorPhase::Executing,
        count <= s.pending.len(),
    ensures
        executor_run(s, completions(count)).0 == (ExecutorState {
            pending: s.pending.skip(count as int),
            ..s
        }),
        dispatched(executor_run(s, completions(count)).1) == s.pending.take(count as int),
    decreases count,
{
    if count == 0 {
        assert(s.pending.skip(0) =~= s.pending);
        assert(s.pending.take(0) =~= Seq::<U>::empty());
        assert(dispatched(Seq::<ExecutorAction<U>>::empty()) =~= Seq::<U>::empty());
    } else {
        let fewer = (count - 1) as nat;
        let completion = ExecutorEventView::<U>::Executed { succeeded: true };
        lemma_completions_drain_pending(s, fewer);
        assert(completions::<U>(count) =~= completions::<U>(fewer).push(completion));
        lemma_executor_run_push(s, completions(fewer), completion);
        let (before, actions) = executor_run(s, completions(fewer));
        lemma_dispatched_push(actions, executor_step(before, completion).1);
        assert(before.pending.len() > 0);
        assert(before.pending.drop_first() =~= s.pending.skip(count as int));
        assert(before.pending.first() == s.pending[count - 1]);
        assert(s.pending.take(count as int) =~= s.pending.take(fewer as int).push(
            s.pending[count - 1],
        ));
    }
}

/// One activation of a rested executor against a log that decodes in full: it dispatches
/// exactly the units beyond the cursor, in log order, moves the cursor to the end of the
/// log, and goes to sleep with nothing waiting.
pub proof fn lemma_activation<U>(s: ExecutorState<U>, log: Seq<U>)
    requires
        s.phase == ExecutorPhase::Idle || s.phase == ExecutorPhase::Sleeping,
        s.pending.len() == 0,
    ensures
        executor_run(s, activation(s.cursor, log)).0 == (ExecutorState {
            cursor: poll_cursor(s.cursor, log),
            pending: Seq::<U>::empty(),
            phase: ExecutorPhase::Sleeping,
            policy: s.policy,
        }),
        dispatched(executor_run(s, activation(s.cursor, log)).1) == match poll_fresh(
            s.cursor,
            log,
        ) {
            Some(fresh) => fresh,
            None => Seq::empty(),
        },
{
    let decoded = log.map_values(|unit: U| Some(unit));
    let opening = seq![ExecutorEventView::Wake, ExecutorEventView::Decoded(decoded)];
    let count: nat = if log.len() > s.cursor {
        (log.len() - s.cursor) as nat
    } else {
        0
    };
    lemma_units_of_decoded_log(log);
    lemma_executor_run_concat(s, opening, completions(count));

    // The wake and the decoded log.
    let none = Seq::<ExecutorEventView<U>>::empty();
    let wake = ExecutorEventView::<U>::Wake;
    let report = ExecutorEventView::Decoded(decoded);
    assert(opening =~= none.push(wake).push(report));
    lemma_executor_run_push(s, none, wake);
    lemma_executor_run_push(s, none.push(wake), report);
    let fetching = ExecutorState { phase: ExecutorPhase::Fetching, ..s };
    assert(executor_run(s, none.push(wake)).0 == fetching);
    let fetch_actions = executor_run(s, none.push(wake)).1;
    lemma_dispatched_push(Seq::<ExecutorAction<U>>::empty(), ExecutorAction::<U>::Fetch);
    assert(dispatched(fetch_actions) =~= Seq::<U>::empty());
    let (opened, first_actions) = executor_run(s, opening);
    assert(executor_step(fetching, report) == executor_on_decoded(fetching, decoded));
    assert(collected(decoded, s.policy) == Ok::<Seq<U>, int>(log));
    lemma_dispatched_push(fetch_actions, executor_step(fetching, report).1);
    match poll_fresh(s.cursor, log) {
        Some(fresh) => {
            assert(dispatched(first_actions) =~= seq![fresh.first()]);
            assert(opened.pending == fresh.drop_first());
            assert(count == fresh.len());

            // All but the last completion send the units that wait.
            let waiting = (count - 1) as nat;
            let completion = ExecutorEventView::<U>::Executed { succeeded: true };
            lemma_completions_drain_pending(opened, waiting);
            assert(completions::<U>(count) =~= completions::<U>(waiting).push(completion));
            lemma_executor_run_push(opened, completions(waiting), completion);
            let (drained, drain_actions) = executor_run(opened, completions(waiting));
            assert(drained.pending =~= Seq::<U>::empty());
            lemma_dispatched_push(drain_actions, executor_step(drained, completion).1);
            let later_actions = executor_run(opened, completions(count)).1;
            assert(fresh.drop_first().take(waiting as int) =~= fresh.drop_first());
            assert(dispatched(later_actions) == fresh.drop_first());
            lemma_dispatched_concat(first_actions, later_actions);
            assert(seq![fresh.first()] + fresh.drop_first() =~= fresh);
        },
        None => {
            assert(dispatched(first_actions) =~= Seq::<U>::empty());
            assert(completions::<U>(count) =~= Seq::<ExecutorEventView<U>>::empty());
            assert(dispatched(executor_run(opened, completions(count)).1) =~= Seq::<U>::empty());
            lemma_dispatched_concat(first_actions, executor_run(opened, completions(count)).1);
            assert(opened.pending =~= Seq::<U>::empty());
        },
    }
}

/// Over any number of activations, a fresh executor dispatches what the polls hand out.
pub proof fn lemma_activations<U>(policy: DecodePolicy, logs: Seq<Seq<U>>)
    ensures
        executor_run(executor_start(policy), activations(0, logs)).0 == (ExecutorState {
            cursor: cursor_after(0, logs),
            pending: Seq::<U>::empty(),
            phase: if logs.len() == 0 {
                ExecutorPhase::Idle
            } else {
                ExecutorPhase::Sleeping
            },
            policy,
        }),
        dispatched(executor_run(executor_start(policy), activations(0, logs)).1) == handed_out(
            0,
            logs,
        ),
    decreases logs.len(),
{
    let start = executor_start::<U>(policy);
    if logs.len() == 0 {
    } else {
        let earlier = logs.drop_last();
        lemma_activations(policy, earlier);
        let rested = executor_run(start, activations(0, earlier)).0;
        let last = activation(cursor_after(0, earlier), logs.last());
        lemma_executor_run_concat(start, activations(0, earlier), last);
        lemma_activation(rested, logs.last());
        lemma_dispatched_concat(
            executor_run(start, activations(0, earlier)).1,
            executor_run(rested, last).1,
        );
        match poll_fresh(cursor_after(0, earlier), logs.last()) {
            Some(fresh) => {},
            None => {
                assert(handed_out(0, earlier) + Seq::<U>::empty() =~= handed_out(0, earlier));
            },
        }
    }
}

/// Ordering of dispatch. Let an append-only log of events be seen through any number of
/// snapshots, the last with payload counts c1, .., cn, and let a caller that follows the
/// protocol run one activation per snapshot. Then the executor gives the processor
/// exactly c1 + .. + cn units, the decodings of the flattened payloads in their order,
/// each once, and ends asleep with nothing waiting and the cursor at the end of the log.
pub proof fn lemma_executor_dispatches_in_payload_order<U>(
    policy: DecodePolicy,
    decode: spec_fn(Seq<u8>) -> U,
    snapshots: Seq<Seq<Seq<Seq<u8>>>>,
)
    requires
        snapshots.len() > 0,
        append_only(snapshots),
    ensures
        ({
            let events = activations(0, decoded_logs(decode, snapshots));
            let (end, actions) = executor_run(executor_start(policy), events);
            &&& dispatched(actions) == decoded_log(decode, snapshots.last())
            &&& dispatched(actions).len() == payload_count(snapshots.last())
            &&& end.cursor == payload_count(snapshots.last())
            &&& end.pending.len() == 0
            &&& end.phase == ExecutorPhase::Sleeping
        }),
{
    lemma_polls_keep_payload_order(decode, snapshots);
    lemma_activations(policy, decoded_logs(decode, snapshots));
}

/// The state in which the executor takes the event at `index`.
pub open spec fn executor_state_at<U>(
    s: ExecutorState<U>,
    events: Seq<ExecutorEventView<U>>,
    index: int,
) -> ExecutorState<U> {
    executor_run(s, events.take(index)).0
}

/// A run answers with as many actions as it takes events.
pub proof fn lemma_executor_run_len<U>(s: ExecutorState<U>, events: Seq<ExecutorEventView<U>>)
    ensures
        executor_run(s, events).1.len() == events.len(),
    decreases events.len(),
{
    if events.len() > 0 {
        lemma_executor_run_len(s, events.drop_last());
    }
}

/// A run answers each event with the action that the transition function gives in the
/// state reached by the events before it.
pub proof fn lemma_executor_run_index<U>(
    s: ExecutorState<U>,
    events: Seq<ExecutorEventView<U>>,
    index: int,
)
    requires
        0 <= index < events.len(),
    ensures
        executor_run(s, events).1.len() == events.len(),
        executor_run(s, events).1[index] == executor_step(
            executor_state_at(s, events, index),
            events[index],
        ).1,
        executor_state_at(s, events, index + 1) == executor_step(
            executor_state_at(s, events, index),
            events[index],
        ).0,
    decreases events.len(),
{
    lemma_executor_run_len(s, events);
    assert(events.take(index + 1).drop_last() =~= events.take(index));
    if index == events.len() - 1 {
        assert(events.take(index) =~= events.drop_last());
    } else {
        lemma_executor_run_index(s, events.drop_last(), index);
        lemma_executor_run_len(s, events.drop_last());
        assert(events.drop_last().take(index) =~= events.take(index));
    }
}

/// A unit at the processor stays there, and nothing else is asked for, until its end is
/// reported.
pub proof fn lemma_executing_until_executed<U>(
    s: ExecutorState<U>,
    events: Seq<ExecutorEventView<U>>,
    from: int,
    to: int,
)
    requires
        0 <= from <= to <= events.len(),
        executor_state_at(s, events, from).phase == ExecutorPhase::Executing,
        forall|k: int| from <= k < to ==> !((#[trigger] events[k]) is Executed),
    ensures
        executor_state_at(s, events, to) == executor_state_at(s, events, from),
        forall|k: int| from <= k < to ==> #[trigger] executor_run(s, events).1[k] is Idle,
    decreases to - from,
{
    if from < to {
        lemma_executing_until_executed(s, events, from, to - 1);
        lemma_executor_run_index(s, events, to - 1);
        assert(!(events[to - 1] is Executed));
    }
}

/// One unit at a time. Whatever is reported and in whatever order, the executor never
/// gives the processor a second unit before the first has been reported finished: after
/// an `Execute`, the next one answers an `Executed` event that came after it.
pub proof fn lemma_one_unit_at_a_time<U>(
    s: ExecutorState<U>,
    events: Seq<ExecutorEventView<U>>,
    first: int,
    second: int,
)
    requires
        0 <= first < second < events.len(),
        executor_run(s, events).1[first] is Execute,
        executor_run(s, events).1[second] is Execute,
    ensures
        exists|k: int| first < k <= second && (#[trigger] events[k]) is Executed,
{
    lemma_executor_run_index(s, events, first);
    lemma_executor_run_index(s, events, second);
    if forall|k: int| first < k <= second ==> !((#[trigger] events[k]) is Executed) {
        assert(executor_state_at(s, events, first + 1).phase == ExecutorPhase::Executing);
        lemma_executing_until_executed(s, events, first + 1, second + 1);
        assert(executor_run(s, events).1[second] is Idle);
        assert(false);
    }
}

/// The cursor never moves back, whatever is reported.
pub proof fn lemma_executor_cursor_never_moves_back<U>(
    s: ExecutorState<U>,
    events: Seq<ExecutorEventView<U>>,
)
    ensures
        executor_run(s, events).0.cursor >= s.cursor,
    decreases events.len(),
{
    if events.len() > 0 {
        lemma_executor_cursor_never_moves_back(s, events.drop_last());
    }
}

/// A halted executor stays halted and asks for nothing more.
pub proof fn lemma_halt_is_final<U>(
    s: ExecutorState<U>,
    events: Seq<ExecutorEventView<U>>,
    from: int,
    to: int,
)
    requires
        0 <= from <= to < events.len(),
        executor_state_at(s, events, from).phase == ExecutorPhase::Halted,
    ensures
        executor_state_at(s, events, to + 1) == executor_state_at(s, events, from),
        executor_run(s, events).1[to] is Idle,
    decreases to - from,
{
    lemma_executor_run_index(s, events, to);
    if from < to {
        lemma_halt_is_final(s, events, from, to - 1);
    }
}

/// Whatever is reported, units wait only while one is at the processor or after a halt,
/// and none waits that the cursor has not counted.
pub proof fn lemma_executor_stays_well_formed<U>(
    s: ExecutorState<U>,
    events: Seq<ExecutorEventView<U>>,
)
    requires
        executor_wf(s),
    ensures
        executor_wf(executor_run(s, events).0),
    decreases events.len(),
{
    if events.len() > 0 {
        lemma_executor_stays_well_formed(s, events.drop_last());
    }
}

/// What the cursor counts. Whatever is reported to a fresh executor, every unit that the
/// cursor has counted has either been given to the processor or still waits: the units
/// dispatched and the units waiting add up to the cursor.
pub proof fn lemma_cursor_counts_dispatched_and_waiting<U>(
    policy: DecodePolicy,
    events: Seq<ExecutorEventView<U>>,
)
    ensures
        ({
            let (end, actions) = executor_run(executor_start(policy), events);
            &&& dispatched(actions).len() + end.pending.len() == end.cursor
            &&& executor_wf(end)
        }),
    decreases events.len(),
{
    let start = executor_start::<U>(policy);
    if events.len() == 0 {
        assert(dispatched(Seq::<ExecutorAction<U>>::empty()) =~= Seq::<U>::empty());
    } else {
        lemma_cursor_counts_dispatched_and_waiting(policy, events.drop_last());
        let (before, actions) = executor_run(start, events.drop_last());
        let (after, action) = executor_step(before, events.last());
        lemma_dispatched_push(actions, action);
    }
}

} // verus!
