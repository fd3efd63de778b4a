//! The network ingress listener: what to do with the listening socket and with the bytes
//! of each connection.
//!
//! One connection is one message. Its bytes are gathered, up to the capacity of the
//! working buffer, until the stream ends, and are then submitted to consensus as one
//! transaction payload. A stream that ends without a byte submits nothing.

use vstd::prelude::*;

verus! {

/// The capacity of a connection's working buffer, and so the most bytes of one message.
pub const SOCKET_BUFFER_SIZE: usize = 4096;

/// The highest port that an address can name.
pub const MAX_PORT: usize = 65535;

/// What can go wrong with the listening socket.
#[derive(Clone, Copy, Debug, PartialEq, Eq, Structural)]
pub enum Error {
    /// The configured port does not make a socket address.
    Parse,
    /// The address could not be bound.
    Bind,
    /// A connection could not be accepted.
    Accept,
}

impl Error {
    /// What the error says of itself.
    pub fn message(&self) -> (text: String)
        ensures
            text@ == match *self {
                Error::Parse => "Socket address parse error"@,
                Error::Bind => "Socket bind error"@,
                Error::Accept => "Accept error"@,
            },
    {
        match self {
            Error::Parse => "Socket address parse error".to_owned(),
            Error::Bind => "Socket bind error".to_owned(),
            Error::Accept => "Accept error".to_owned(),
        }
    }
}

/// Where the listener stands between two events.
#[derive(Clone, Copy, Debug, PartialEq, Eq, Structural)]
pub enum ListenerPhase {
    /// Made, not yet started.
    Created,
    /// The address is being bound.
    Binding,
    /// Bound and accepting connections.
    Listening,
    /// The listener could not be set up. There is no way back.
    Failed,
}

/// What the caller reports to the listener.
#[derive(Clone, Copy, Debug, PartialEq, Eq, Structural)]
pub enum ListenerEvent {
    /// The listener is asked to run.
    Start,
    /// The address is bound.
    Bound,
    /// The address could not be bound.
    BindFailed,
    /// A connection has been accepted.
    Accepted,
    /// Accepting a connection failed.
    AcceptFailed,
}

/// What the listener asks the caller to do next.
#[derive(Clone, Copy, Debug, PartialEq, Eq, Structural)]
pub enum ListenerAction {
    /// Nothing: the event did not apply in this phase.
    Idle,
    /// Bind the local address with this port and report how it went.
    Bind { port: u16 },
    /// Wait for the next connection.
    Accept,
    /// Hand the accepted connection to a task of its own, and wait for the next one
    /// without waiting for that task.
    Serve,
    /// Log this error and wait for the next connection.
    Report(Error),
    /// Give up and report this error to whoever started the listener.
    Fail(Error),
}

/// The listener as a mathematical value.
pub struct ListenerState {
    pub port: nat,
    pub phase: ListenerPhase,
}

/// The state of a listener that has just been made for a port.
pub open spec fn listener_start(port: nat) -> ListenerState {
    ListenerState { port, phase: ListenerPhase::Created }
}

/// The transition function: the state and the action that follow a state and an event.
pub open spec fn listener_step(s: ListenerState, event: ListenerEvent) -> (
    ListenerState,
    ListenerAction,
) {
    match (s.phase, event) {
        (ListenerPhase::Created, ListenerEvent::Start) => if s.port <= MAX_PORT {
            (
                ListenerState { phase: ListenerPhase::Binding, ..s },
                ListenerAction::Bind { port: s.port as u16 },
            )
        } else {
            (
                ListenerState { phase: ListenerPhase::Failed, ..s },
                ListenerAction::Fail(Error::Parse),
            )
        },
        (ListenerPhase::Binding, ListenerEvent::Bound) => (
            ListenerState { phase: ListenerPhase::Listening, ..s },
            ListenerAction::Accept,
        ),
        (ListenerPhase::Binding, ListenerEvent::BindFailed) => (
            ListenerState { phase: ListenerPhase::Failed, ..s },
            ListenerAction::Fail(Error::Bind),
        ),
        (ListenerPhase::Listening, ListenerEvent::Accepted) => (s, ListenerAction::Serve),
        (ListenerPhase::Listening, ListenerEvent::AcceptFailed) => (
            s,
            ListenerAction::Report(Error::Accept),
        ),
        _ => (s, ListenerAction::Idle),
    }
}

/// The run of the listener over a sequence of events: the state it ends in and the
/// actions it answered with, one per event.
pub open spec fn listener_run(s: ListenerState, events: Seq<ListenerEvent>) -> (
    ListenerState,
    Seq<ListenerAction>,
)
    decreases events.len(),
{
    if events.len() == 0 {
        (s, Seq::empty())
    } else {
        let (before, actions) = listener_run(s, events.drop_last());
        let (after, action) = listener_step(before, events.last());
        (after, actions.push(action))
    }
}

/// The network ingress listener.
pub struct Server {
    port: usize,
    phase: ListenerPhase,
}

impl View for Server {
    type V = ListenerState;

    closed spec fn view(&self) -> ListenerState {
        ListenerState { port: self.port as nat, phase: self.phase }
    }
}

impl Server {
    /// A listener for the given port, not yet started.
    pub fn new(port: usize) -> (server: Server)
        ensures
            server@ == listener_start(port as nat),
    {
        Server { port, phase: ListenerPhase::Created }
    }

    /// Takes one event and answers with the next action, as `listener_step` says.
    pub fn step(&mut self, event: ListenerEvent) -> (action: ListenerAction)
        ensures
            (final(self)@, action) == listener_step(old(self)@, event),
    {
        match (self.phase, event) {
            (ListenerPhase::Created, ListenerEvent::Start) => {
                if self.port <= MAX_PORT {
                    self.phase = ListenerPhase::Binding;
                    ListenerAction::Bind { port: self.port as u16 }
                } else {
                    self.phase = ListenerPhase::Failed;
                    ListenerAction::Fail(Error::Parse)
                }
            },
            (ListenerPhase::Binding, ListenerEvent::Bound) => {
                self.phase = ListenerPhase::Listening;
                ListenerAction::Accept
            },
            (ListenerPhase::Binding, ListenerEvent::BindFailed) => {
                self.phase = ListenerPhase::Failed;
                ListenerAction::Fail(Error::Bind)
            },
            (ListenerPhase::Listening, ListenerEvent::Accepted) => ListenerAction::Serve,
            (ListenerPhase::Listening, ListenerEvent::AcceptFailed) => ListenerAction::Report(
                Error::Accept,
            ),
            _ => ListenerAction::Idle,
        }
    }

    /// Runs the listener over a recorded sequence of events and returns the actions that
    /// it answered with, one per event.
    pub fn run(&mut self, events: Vec<ListenerEvent>) -> (actions: Vec<ListenerAction>)
        ensures
            (final(self)@, actions@) == listener_run(old(self)@, events@),
    {
        let mut actions: Vec<ListenerAction> = Vec::new();
        assert(events@.take(0) =~= Seq::<ListenerEvent>::empty());
        for event in it: events
            invariant
                it.seq() == events@,
                (self@, actions@) == listener_run(old(self)@, events@.take(it.index() as int)),
        {
            assert(events@.take(it.index() + 1).drop_last() =~= events@.take(it.index() as int));
            let action = self.step(event);
            actions.push(action);
        }
        assert(events@.take(events@.len() as int) =~= events@);
        actions
    }

    /// The configured port.
    pub fn port(&self) -> (port: usize)
        ensures
            port == self@.port,
    {
        self.port
    }

    /// Where the listener stands.
    pub fn phase(&self) -> (phase: ListenerPhase)
        ensures
            phase == self@.phase,
    {
        self.phase
    }
}

/// The state in which the listener takes the event at `index`.
pub open spec fn listener_state_at(
    s: ListenerState,
    events: Seq<ListenerEvent>,
    index: int,
) -> ListenerState {
    listener_run(s, events.take(index)).0
}

/// A run answers with as many actions as it takes events.
pub proof fn lemma_listener_run_len(s: ListenerState, events: Seq<ListenerEvent>)
    ensures
        listener_run(s, events).1.len() == events.len(),
    decreases events.len(),
{
    if events.len() > 0 {
        lemma_listener_run_len(s, events.drop_last());
    }
}

/// A run answers each event with the action that the transition function gives in the
/// state reached by the events before it.
pub proof fn lemma_listener_run_index(s: ListenerState, events: Seq<ListenerEvent>, index: int)
    requires
        0 <= index < events.len(),
    ensures
        listener_run(s, events).1.len() == events.len(),
        listener_run(s, events).1[index] == listener_step(
            listener_state_at(s, events, index),
            events[index],
        ).1,
        listener_state_at(s, events, index + 1) == listener_step(
            listener_state_at(s, events, index),
            events[index],
        ).0,
    decreases events.len(),
{
    lemma_listener_run_len(s, events);
    assert(events.take(index + 1).drop_last() =~= events.take(index));
    if index == events.len() - 1 {
        assert(events.take(index) =~= events.drop_last());
    } else {
        lemma_listener_run_index(s, events.drop_last(), index);
        lemma_listener_run_len(s, events.drop_last());
        assert(events.drop_last().take(index) =~= events.take(index));
    }
}

/// The listener outlives its connections. Once it is listening it stays listening,
/// whatever goes wrong with accepting: a failed accept is reported and the next
/// connection is waited for. Likewise a listener that failed to set up stays failed.
pub proof fn lemma_listener_settles(
    s: ListenerState,
    events: Seq<ListenerEvent>,
    from: int,
    to: int,
)
    requires
        0 <= from <= to <= events.len(),
        listener_state_at(s, events, from).phase == ListenerPhase::Listening || listener_state_at(
            s,
            events,
            from,
        ).phase == ListenerPhase::Failed,
    ensures
        listener_state_at(s, events, to).phase == listener_state_at(s, events, from).phase,
    decreases to - from,
{
    if from < to {
        lemma_listener_settles(s, events, from, to - 1);
        lemma_listener_run_index(s, events, to - 1);
    }
}

/// A failure to set up is reported before any connection is served: in a run in which
/// the listener gives up, it never asks for a connection to be served, before or after.
pub proof fn lemma_failure_precedes_service(
    s: ListenerState,
    events: Seq<ListenerEvent>,
    failure: int,
    other: int,
)
    requires
        0 <= failure < events.len(),
        0 <= other < events.len(),
        listener_run(s, events).1[failure] is Fail,
    ensures
        !(listener_run(s, events).1[other] is Serve),
{
    lemma_listener_run_index(s, events, failure);
    lemma_listener_run_index(s, events, other);
    if other < failure {
        if listener_run(s, events).1[other] is Serve {
            lemma_listener_settles(s, events, other, failure);
        }
    } else if failure < other {
        lemma_listener_settles(s, events, failure + 1, other);
    }
}

/// Every accepted connection is served, each by itself: while the listener listens, it
/// answers each accepted connection with `Serve`, whatever became of the ones before.
pub proof fn lemma_every_connection_is_served(
    s: ListenerState,
    events: Seq<ListenerEvent>,
    bound: int,
    index: int,
)
    requires
        0 <= bound <= index < events.len(),
        listener_state_at(s, events, bound).phase == ListenerPhase::Listening,
        events[index] == ListenerEvent::Accepted,
    ensures
        listener_run(s, events).1[index] == ListenerAction::Serve,
{
    lemma_listener_settles(s, events, bound, index);
    lemma_listener_run_index(s, events, index);
}

} // verus!
