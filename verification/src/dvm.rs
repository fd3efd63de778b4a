//! The submission and shutdown bridge: one loop that forwards local submissions to
//! consensus, gives consensus-ordered transactions to the processor one at a time, and
//! winds down when told to stop.
//!
//! The bridge owns the intake queue of local submissions. The caller waits on the three
//! sources (the intake queue, the delivery stream, the stop signal), reports whichever
//! became ready, and carries out the action that the bridge answers with.

use ethereum_types::H160;
use std::collections::VecDeque;
use vstd::prelude::*;

verus! {

/// `ethereum_types::H160`, the identifier of the peer that proposed a transaction. The
/// bridge carries such a value from an event to an action and never looks inside it.
#[verifier::external_type_specification]
#[verifier::external_body]
pub struct ExH160(H160);

/// Where the bridge stands between two events.
#[derive(Clone, Copy, Debug, PartialEq, Eq, Structural)]
pub enum BridgePhase {
    /// Waiting for the next event; nothing is at the processor.
    Running,
    /// One transaction is at the processor.
    Executing,
    /// The stop signal came while a transaction was at the processor, which is left to
    /// finish.
    Draining,
    /// The bridge has stopped. There is no way back.
    Stopped,
    /// The processor failed a transaction. There is no way back.
    Halted,
}

/// What the caller reports to the bridge.
#[derive(Debug, PartialEq, Eq)]
pub enum BridgeEvent<T> {
    /// The intake queue has a submission ready.
    LocalSubmission,
    /// Consensus has delivered a transaction, with the peer that proposed it.
    Delivered { transaction: T, peer: H160 },
    /// Consensus has answered a forwarded submission.
    Forwarded { accepted: bool },
    /// The processor has finished the transaction it was given.
    Executed { succeeded: bool },
    /// The stop signal has fired.
    Stop,
}

/// What the bridge asks the caller to do next.
#[derive(Debug, PartialEq, Eq)]
pub enum BridgeAction<T> {
    /// Nothing: go on waiting.
    Idle,
    /// Submit this transaction to consensus, as it is, and report the answer. A
    /// rejection is for the caller to log; the transaction is not offered again.
    Forward { transaction: T },
    /// Give this transaction to the processor, advance the processor by one unit, and
    /// report how it ended.
    Execute { transaction: T, peer: H160 },
    /// The processor is busy: the event is handed back untouched, to be reported again
    /// once the transaction in flight has finished.
    Deferred { event: BridgeEvent<T> },
    /// Release the consensus handle and leave the loop.
    Shutdown,
    /// Leave the loop: the execution path has failed.
    Halt,
}

/// Why a local submission was turned away.
#[derive(Clone, Copy, Debug, PartialEq, Eq, Structural)]
pub enum BridgeError {
    /// The stop signal has been observed; no further work is accepted.
    Stopped,
    /// The execution path has failed; no further work is accepted.
    Halted,
}

/// The bridge as a mathematical value.
pub struct BridgeState<T> {
    /// Local submissions not yet forwarded, oldest first.
    pub intake: Seq<T>,
    pub phase: BridgePhase,
}

/// The state of a bridge that has just been made.
pub open spec fn bridge_start<T>() -> BridgeState<T> {
    BridgeState { intake: Seq::empty(), phase: BridgePhase::Running }
}

/// A transaction is at the processor.
pub open spec fn in_flight(phase: BridgePhase) -> bool {
    phase == BridgePhase::Executing || phase == BridgePhase::Draining
}

/// The bridge takes local submissions: it has neither been told to stop nor failed.
pub open spec fn accepting(phase: BridgePhase) -> bool {
    phase == BridgePhase::Running || phase == BridgePhase::Executing
}

/// The transition function: the state and the action that follow a state and an event.
pub open spec fn bridge_step<T>(s: BridgeState<T>, event: BridgeEvent<T>) -> (
    BridgeState<T>,
    BridgeAction<T>,
) {
    match s.phase {
        BridgePhase::Running => match event {
            BridgeEvent::LocalSubmission => if s.intake.len() > 0 {
                (
                    BridgeState { intake: s.intake.drop_first(), ..s },
                    BridgeAction::Forward { transaction: s.intake.first() },
                )
            } else {
                (s, BridgeAction::Idle)
            },
            BridgeEvent::Delivered { transaction, peer } => (
                BridgeState { phase: BridgePhase::Executing, ..s },
                BridgeAction::Execute { transaction, peer },
            ),
            BridgeEvent::Forwarded { accepted } => (s, BridgeAction::Idle),
            BridgeEvent::Executed { succeeded } => (s, BridgeAction::Idle),
            BridgeEvent::Stop => (
                BridgeState { phase: BridgePhase::Stopped, ..s },
                BridgeAction::Shutdown,
            ),
        },
        BridgePhase::Executing => match event {
            BridgeEvent::LocalSubmission => (s, BridgeAction::Deferred { event }),
            BridgeEvent::Delivered { transaction, peer } => (
                s,
                BridgeAction::Deferred { event },
            ),
            BridgeEvent::Forwarded { accepted } => (s, BridgeAction::Idle),
            BridgeEvent::Executed { succeeded } => if succeeded {
                (BridgeState { phase: BridgePhase::Running, ..s }, BridgeAction::Idle)
            } else {
                (BridgeState { phase: BridgePhase::Halted, ..s }, BridgeAction::Halt)
            },
            BridgeEvent::Stop => (
                BridgeState { phase: BridgePhase::Draining, ..s },
                BridgeAction::Idle,
            ),
        },
        BridgePhase::Draining => match event {
            BridgeEvent::Executed { succeeded } => if succeeded {
                (BridgeState { phase: BridgePhase::Stopped, ..s }, BridgeAction::Shutdown)
            } else {
                (BridgeState { phase: BridgePhase::Halted, ..s }, BridgeAction::Halt)
            },
            _ => (s, BridgeAction::Idle),
        },
        BridgePhase::Stopped | BridgePhase::Halted => (s, BridgeAction::Idle),
    }
}

/// The run of the bridge over a sequence of events: the state it ends in and the actions
/// it answered with, one per event.
pub open spec fn bridge_run<T>(s: BridgeState<T>, events: Seq<BridgeEvent<T>>) -> (
    BridgeState<T>,
    Seq<BridgeAction<T>>,
)
    decreases events.len(),
{
    if events.len() == 0 {
        (s, Seq::empty())
    } else {
        let (before, actions) = bridge_run(s, events.drop_last());
        let (after, action) = bridge_step(before, events.last());
        (after, actions.push(action))
    }
}

/// The submission and shutdown bridge.
pub struct DVM<T> {
    intake: VecDeque<T>,
    phase: BridgePhase,
}

impl<T> View for DVM<T> {
    type V = BridgeState<T>;

    closed spec fn view(&self) -> BridgeState<T> {
        BridgeState { intake: self.intake@, phase: self.phase }
    }
}

impl<T> DVM<T> {
    /// A running bridge with an empty intake queue.
    pub fn new() -> (dvm: DVM<T>)
        ensures
            dvm@ == bridge_start::<T>(),
    {
        DVM { intake: VecDeque::new(), phase: BridgePhase::Running }
    }

    /// Queues a local submission behind the ones already waiting. A bridge that has been
    /// told to stop, or that has failed, takes no more and says which.
    pub fn send_transaction(&mut self, transaction: T) -> (result: Result<(), BridgeError>)
        ensures
            final(self)@.phase == old(self)@.phase,
            match result {
                Ok(_) => accepting(old(self)@.phase) && final(self)@.intake == old(
                    self,
                )@.intake.push(transaction),
                Err(error) => !accepting(old(self)@.phase) && final(self)@ == old(self)@
                    && (error == BridgeError::Halted <==> old(self)@.phase
                    == BridgePhase::Halted),
            },
    {
        match self.phase {
            BridgePhase::Running | BridgePhase::Executing => {
                self.intake.push_back(transaction);
                Ok(())
            },
            BridgePhase::Draining | BridgePhase::Stopped => Err(BridgeError::Stopped),
            BridgePhase::Halted => Err(BridgeError::Halted),
        }
    }

    /// Takes one event and answers with the next action, as `bridge_step` says.
    pub fn step(&mut self, event: BridgeEvent<T>) -> (action: BridgeAction<T>)
        ensures
            (final(self)@, action) == bridge_step(old(self)@, event),
    {
        match self.phase {
            BridgePhase::Running => match event {
                BridgeEvent::LocalSubmission => {
                    match self.intake.pop_front() {
                        Some(transaction) => {
                            assert(self.intake@ =~= old(self).intake@.drop_first());
                            BridgeAction::Forward { transaction }
                        },
                        None => BridgeAction::Idle,
                    }
                },
                BridgeEvent::Delivered { transaction, peer } => {
                    self.phase = BridgePhase::Executing;
                    BridgeAction::Execute { transaction, peer }
                },
                BridgeEvent::Forwarded { accepted } => BridgeAction::Idle,
                BridgeEvent::Executed { succeeded } => BridgeAction::Idle,
                BridgeEvent::Stop => {
                    self.phase = BridgePhase::Stopped;
                    BridgeAction::Shutdown
                },
            },
            BridgePhase::Executing => match event {
                BridgeEvent::Forwarded { accepted } => BridgeAction::Idle,
                BridgeEvent::Executed { succeeded } => {
                    if succeeded {
                        self.phase = BridgePhase::Running;
                        BridgeAction::Idle
                    } else {
                        self.phase = BridgePhase::Halted;
                        BridgeAction::Halt
                    }
                },
                BridgeEvent::Stop => {
                    self.phase = BridgePhase::Draining;
                    BridgeAction::Idle
                },
                _ => BridgeAction::Deferred { event },
            },
            BridgePhase::Draining => match event {
                BridgeEvent::Executed { succeeded } => {
                    if succeeded {
                        self.phase = BridgePhase::Stopped;
                        BridgeAction::Shutdown
                    } else {
                        self.phase = BridgePhase::Halted;
                        BridgeAction::Halt
                    }
                },
                _ => BridgeAction::Idle,
            },
            BridgePhase::Stopped | BridgePhase::Halted => BridgeAction::Idle,
        }
    }

    /// Runs the loop over a recorded sequence of events and returns the actions that it
    /// answered with, one per event.
    pub fn serve(&mut self, events: Vec<BridgeEvent<T>>) -> (actions: Vec<BridgeAction<T>>)
        ensures
            (final(self)@, actions@) == bridge_run(old(self)@, events@),
    {
        let mut actions: Vec<BridgeAction<T>> = Vec::new();
        assert(events@.take(0) =~= Seq::<BridgeEvent<T>>::empty());
        for event in it: events
            invariant
                it.seq() == events@,
                (self@, actions@) == bridge_run(old(self)@, events@.take(it.index() as int)),
        {
            assert(events@.take(it.index() + 1).drop_last() =~= events@.take(it.index() as int));
            let action = self.step(event);
            actions.push(action);
        }
        assert(events@.take(events@.len() as int) =~= events@);
        actions
    }

    /// Where the bridge stands.
    pub fn phase(&self) -> (phase: BridgePhase)
        ensures
            phase == self@.phase,
    {
        self.phase
    }

    /// How many local submissions wait to be forwarded.
    pub fn pending(&self) -> (count: usize)
        ensures
            count == self@.intake.len(),
    {
        self.intake.len()
    }
}

/// The state in which the bridge takes the event at `index`.
pub open spec fn bridge_state_at<T>(
    s: BridgeState<T>,
    events: Seq<BridgeEvent<T>>,
    index: int,
) -> BridgeState<T> {
    bridge_run(s, events.take(index)).0
}

/// The transactions that a sequence of actions forwards to consensus, in order.
pub open spec fn forwarded<T>(actions: Seq<BridgeAction<T>>) -> Seq<T>
    decreases actions.len(),
{
    if actions.len() == 0 {
        Seq::empty()
    } else {
        match actions.last() {
            BridgeAction::Forward { transaction } => forwarded(actions.drop_last()).push(
                transaction,
            ),
            _ => forwarded(actions.drop_last()),
        }
    }
}

/// A run answers each event with one action, the one that the transition function gives
/// in the state reached by the events before it.
pub proof fn lemma_bridge_run_index<T>(s: BridgeState<T>, events: Seq<BridgeEvent<T>>, index: int)
    requires
        0 <= index < events.len(),
    ensures
        bridge_run(s, events).1.len() == events.len(),
        bridge_run(s, events).1[index] == bridge_step(
            bridge_state_at(s, events, index),
            events[index],
        ).1,
        bridge_state_at(s, events, index + 1) == bridge_step(
            bridge_state_at(s, events, index),
            events[index],
        ).0,
    decreases events.len(),
{
    lemma_bridge_run_len(s, events);
    assert(events.take(index + 1).drop_last() =~= events.take(index));
    if index == events.len() - 1 {
        assert(events.take(index) =~= events.drop_last());
    } else {
        lemma_bridge_run_index(s, events.drop_last(), index);
        lemma_bridge_run_len(s, events.drop_last());
        assert(events.drop_last().take(index) =~= events.take(index));
    }
}

/// A run answers with as many actions as it takes events.
pub proof fn lemma_bridge_run_len<T>(s: BridgeState<T>, events: Seq<BridgeEvent<T>>)
    ensures
        bridge_run(s, events).1.len() == events.len(),
    decreases events.len(),
{
    if events.len() > 0 {
        lemma_bridge_run_len(s, events.drop_last());
    }
}

/// A transaction at the processor stays there until its end is reported.
pub proof fn lemma_in_flight_until_executed<T>(
    s: BridgeState<T>,
    events: Seq<BridgeEvent<T>>,
    from: int,
    to: int,
)
    requires
        0 <= from <= to <= events.len(),
        in_flight(bridge_state_at(s, events, from).phase),
        forall|k: int| from <= k < to ==> !((#[trigger] events[k]) is Executed),
    ensures
        in_flight(bridge_state_at(s, events, to).phase),
    decreases to - from,
{
    if from < to {
        lemma_in_flight_until_executed(s, events, from, to - 1);
        lemma_bridge_run_index(s, events, to - 1);
        assert(!(events[to - 1] is Executed));
    }
}

/// At most one in flight. Whatever is reported and in whatever order, the bridge never
/// gives the processor a second transaction before the first has been reported finished:
/// between any two `Execute` actions lies an `Executed` event.
pub proof fn lemma_at_most_one_in_flight<T>(
    s: BridgeState<T>,
    events: Seq<BridgeEvent<T>>,
    first: int,
    second: int,
)
    requires
        0 <= first < second < events.len(),
        bridge_run(s, events).1[first] is Execute,
        bridge_run(s, events).1[second] is Execute,
    ensures
        exists|k: int| first < k < second && (#[trigger] events[k]) is Executed,
{
    lemma_bridge_run_index(s, events, first);
    lemma_bridge_run_index(s, events, second);
    if forall|k: int| first < k < second ==> !((#[trigger] events[k]) is Executed) {
        assert(in_flight(bridge_state_at(s, events, first + 1).phase));
        lemma_in_flight_until_executed(s, events, first + 1, second);
        assert(false);
    }
}

/// What is given to the processor is what consensus delivered at that very step: the
/// same transaction from the same peer, once.
pub proof fn lemma_dispatch_is_the_delivery<T>(
    s: BridgeState<T>,
    events: Seq<BridgeEvent<T>>,
    index: int,
)
    requires
        0 <= index < events.len(),
    ensures
        bridge_run(s, events).1[index] matches BridgeAction::Execute { transaction, peer }
            ==> events[index] == (BridgeEvent::Delivered { transaction, peer }),
        events[index] is Delivered && bridge_state_at(s, events, index).phase
            == BridgePhase::Running ==> bridge_run(s, events).1[index] == (BridgeAction::Execute {
            transaction: events[index]->transaction,
            peer: events[index]->peer,
        }),
{
    lemma_bridge_run_index(s, events, index);
}

/// Once the bridge has been told to stop, or has failed, it stays so, answers every event
/// with `Idle`, `Shutdown` or `Halt`, and leaves the intake queue as it is.
pub proof fn lemma_no_work_after_stop<T>(
    s: BridgeState<T>,
    events: Seq<BridgeEvent<T>>,
    from: int,
    to: int,
)
    requires
        0 <= from <= to < events.len(),
        !accepting(bridge_state_at(s, events, from).phase),
    ensures
        !accepting(bridge_state_at(s, events, to + 1).phase),
        bridge_state_at(s, events, to + 1).intake == bridge_state_at(s, events, from).intake,
        ({
            let action = bridge_run(s, events).1[to];
            action is Idle || action is Shutdown || action is Halt
        }),
    decreases to - from,
{
    lemma_bridge_run_index(s, events, to);
    if from < to {
        lemma_no_work_after_stop(s, events, from, to - 1);
    }
}

/// Graceful stop. After the stop signal has been reported, no transaction is given to
/// the processor and no submission is forwarded, whatever is reported later; what waits
/// in the intake queue is left there. A transaction that was at the processor when the
/// signal came is not cut short: it is still in flight after the signal.
pub proof fn lemma_graceful_stop<T>(
    s: BridgeState<T>,
    events: Seq<BridgeEvent<T>>,
    stop: int,
    later: int,
)
    requires
        0 <= stop < later < events.len(),
        events[stop] is Stop,
    ensures
        ({
            let action = bridge_run(s, events).1[later];
            !(action is Execute) && !(action is Forward) && !(action is Deferred)
        }),
        bridge_state_at(s, events, later + 1).intake == bridge_state_at(s, events, stop).intake,
        in_flight(bridge_state_at(s, events, stop).phase) ==> in_flight(
            bridge_state_at(s, events, stop + 1).phase,
        ),
{
    lemma_bridge_run_index(s, events, stop);
    lemma_no_work_after_stop(s, events, stop + 1, later);
}

/// The transaction that was at the processor when the stop signal came finishes, and the
/// bridge shuts down at the report of its end.
pub proof fn lemma_stop_waits_for_unit_in_flight<T>(
    s: BridgeState<T>,
    events: Seq<BridgeEvent<T>>,
    stop: int,
    done: int,
)
    requires
        0 <= stop < done < events.len(),
        events[stop] is Stop,
        bridge_state_at(s, events, stop).phase == BridgePhase::Executing,
        events[done] == (BridgeEvent::<T>::Executed { succeeded: true }),
        forall|k: int| stop < k < done ==> !((#[trigger] events[k]) is Executed),
    ensures
        bridge_state_at(s, events, done).phase == BridgePhase::Draining,
        bridge_run(s, events).1[done] == BridgeAction::<T>::Shutdown,
        bridge_state_at(s, events, done + 1).phase == BridgePhase::Stopped,
{
    lemma_bridge_run_index(s, events, stop);
    lemma_bridge_run_index(s, events, done);
    lemma_in_flight_until_executed(s, events, stop + 1, done);
    if stop + 1 < done {
        lemma_no_work_after_stop(s, events, stop + 1, done - 1);
    }
}

/// A rejection does not end the loop. Whatever consensus answers to a forwarded
/// submission, the bridge stays as it is: it neither stops nor offers the transaction
/// again.
pub proof fn lemma_rejection_does_not_end_the_loop<T>(s: BridgeState<T>, accepted: bool)
    ensures
        bridge_step(s, BridgeEvent::Forwarded { accepted }) == (s, BridgeAction::<T>::Idle),
{
}

/// First in, first out. Local submissions leave the intake queue in the order in which
/// they entered it, each once: what a run forwards, followed by what still waits, is the
/// queue that the run started with.
pub proof fn lemma_forwards_in_submission_order<T>(s: BridgeState<T>, events: Seq<BridgeEvent<T>>)
    ensures
        forwarded(bridge_run(s, events).1) + bridge_run(s, events).0.intake == s.intake,
    decreases events.len(),
{
    if events.len() == 0 {
        assert(forwarded(bridge_run(s, events).1) + s.intake =~= s.intake);
    } else {
        lemma_forwards_in_submission_order(s, events.drop_last());
        let (before, actions) = bridge_run(s, events.drop_last());
        let (after, action) = bridge_step(before, events.last());
        assert(actions.push(action).drop_last() =~= actions);
        match action {
            BridgeAction::Forward { transaction } => {
                assert(forwarded(actions).push(transaction) + before.intake.drop_first()
                    =~= forwarded(actions) + before.intake);
            },
            _ => {},
        }
    }
}

} // verus!
