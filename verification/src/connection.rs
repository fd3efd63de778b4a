//! One accepted connection: gathering its bytes and submitting them once.

use crate::server::SOCKET_BUFFER_SIZE;
use vstd::prelude::*;

verus! {

/// Where the handling of a connection stands between two events.
#[derive(Clone, Copy, Debug, PartialEq, Eq, Structural)]
pub enum ConnectionPhase {
    /// Bytes are being read.
    Reading,
    /// The message has been handed over for submission.
    Submitting,
    /// The connection is done with.
    Closed,
}

/// Why the handling of a connection ended without a payload in consensus.
#[derive(Clone, Copy, Debug, PartialEq, Eq, Structural)]
pub enum ConnectionError {
    /// Reading from the connection failed.
    Read,
    /// Consensus turned the payload away.
    Rejected,
}

/// What the caller reports about a connection.
#[derive(Debug, PartialEq, Eq)]
pub enum ConnectionEvent {
    /// A read returned these bytes; none means that the stream has ended.
    Read(Vec<u8>),
    /// A read failed.
    ReadFailed,
    /// Consensus has answered the submission.
    Submitted { accepted: bool },
}

/// What the caller is asked to do next with a connection.
#[derive(Debug, PartialEq, Eq)]
pub enum ConnectionAction {
    /// Nothing: the event did not apply in this phase.
    Idle,
    /// Read again, at most this many bytes, and report what came.
    Read { limit: usize },
    /// Submit these bytes to consensus as one transaction payload and report the answer.
    Submit(Vec<u8>),
    /// Close the connection; all is done.
    Close,
    /// Log this, drop what there is, and close the connection. Nothing is tried again.
    Fail(ConnectionError),
}

/// An event as a mathematical value.
pub enum ConnectionEventView {
    Read(Seq<u8>),
    ReadFailed,
    Submitted { accepted: bool },
}

impl View for ConnectionEvent {
    type V = ConnectionEventView;

    open spec fn view(&self) -> ConnectionEventView {
        match *self {
            ConnectionEvent::Read(bytes) => ConnectionEventView::Read(bytes@),
            ConnectionEvent::ReadFailed => ConnectionEventView::ReadFailed,
            ConnectionEvent::Submitted { accepted } => ConnectionEventView::Submitted { accepted },
        }
    }
}

/// An action as a mathematical value.
pub enum ConnectionActionView {
    Idle,
    Read { limit: nat },
    Submit(Seq<u8>),
    Close,
    Fail(ConnectionError),
}

impl View for ConnectionAction {
    type V = ConnectionActionView;

    open spec fn view(&self) -> ConnectionActionView {
        match *self {
            ConnectionAction::Idle => ConnectionActionView::Idle,
            ConnectionAction::Read { limit } => ConnectionActionView::Read { limit: limit as nat },
            ConnectionAction::Submit(payload) => ConnectionActionView::Submit(payload@),
            ConnectionAction::Close => ConnectionActionView::Close,
            ConnectionAction::Fail(error) => ConnectionActionView::Fail(error),
        }
    }
}

/// The handling of a connection as a mathematical value.
pub struct ConnectionState {
    /// The bytes gathered so far.
    pub received: Seq<u8>,
    pub phase: ConnectionPhase,
}

/// The state of a connection that has just been accepted.
pub open spec fn connection_start() -> ConnectionState {
    ConnectionState { received: Seq::empty(), phase: ConnectionPhase::Reading }
}

/// How many more bytes the working buffer takes.
pub open spec fn room(received: Seq<u8>) -> nat {
    if received.len() < SOCKET_BUFFER_SIZE {
        (SOCKET_BUFFER_SIZE - received.len()) as nat
    } else {
        0
    }
}

/// A message cut to the capacity of the working buffer.
pub open spec fn capped(bytes: Seq<u8>) -> Seq<u8> {
    if bytes.len() > SOCKET_BUFFER_SIZE {
        bytes.take(SOCKET_BUFFER_SIZE as int)
    } else {
        bytes
    }
}

/// While reading, the buffer is not full; otherwise it is empty.
pub open spec fn connection_wf(s: ConnectionState) -> bool {
    if s.phase == ConnectionPhase::Reading {
        s.received.len() < SOCKET_BUFFER_SIZE
    } else {
        s.received.len() == 0
    }
}

/// The transition function: the state and the action that follow a state and an event.
pub open spec fn connection_step(s: ConnectionState, event: ConnectionEventView) -> (
    ConnectionState,
    ConnectionActionView,
) {
    let submitting = ConnectionState { received: Seq::empty(), phase: ConnectionPhase::Submitting };
    let closed = ConnectionState { received: Seq::empty(), phase: ConnectionPhase::Closed };
    match (s.phase, event) {
        (ConnectionPhase::Reading, ConnectionEventView::Read(bytes)) => {
            if bytes.len() == 0 {
                if s.received.len() == 0 {
                    (closed, ConnectionActionView::Close)
                } else {
                    (submitting, ConnectionActionView::Submit(s.received))
                }
            } else {
                let received = s.received + (if bytes.len() > room(s.received) {
                    bytes.take(room(s.received) as int)
                } else {
                    bytes
                });
                if room(received) == 0 {
                    (submitting, ConnectionActionView::Submit(received))
                } else {
                    (
                        ConnectionState { received, phase: ConnectionPhase::Reading },
                        ConnectionActionView::Read { limit: room(received) },
                    )
                }
            }
        },
        (ConnectionPhase::Reading, ConnectionEventView::ReadFailed) => (
            closed,
            ConnectionActionView::Fail(ConnectionError::Read),
        ),
        (ConnectionPhase::Submitting, ConnectionEventView::Submitted { accepted }) => (
            closed,
            if accepted {
                ConnectionActionView::Close
            } else {
                ConnectionActionView::Fail(ConnectionError::Rejected)
            },
        ),
        _ => (s, ConnectionActionView::Idle),
    }
}

/// The handling of one accepted connection.
pub struct Connection {
    received: Vec<u8>,
    phase: ConnectionPhase,
}

impl View for Connection {
    type V = ConnectionState;

    closed spec fn view(&self) -> ConnectionState {
        ConnectionState { received: self.received@, phase: self.phase }
    }
}

impl Connection {
    /// The handling of a connection that has just been accepted: nothing read yet.
    pub fn new() -> (connection: Connection)
        ensures
            connection@ == connection_start(),
    {
        Connection { received: Vec::new(), phase: ConnectionPhase::Reading }
    }

    /// How many more bytes the working buffer takes: the limit of the next read.
    pub fn remaining(&self) -> (limit: usize)
        ensures
            limit == room(self@.received),
    {
        if self.received.len() < SOCKET_BUFFER_SIZE {
            SOCKET_BUFFER_SIZE - self.received.len()
        } else {
            0
        }
    }

    /// Takes one event and answers with the next action, as `connection_step` says.
    pub fn step(&mut self, event: ConnectionEvent) -> (action: ConnectionAction)
        ensures
            (final(self)@, action@) == connection_step(old(self)@, event@),
            connection_wf(old(self)@) ==> connection_wf(final(self)@),
    {
        match (self.phase, event) {
            (ConnectionPhase::Reading, ConnectionEvent::Read(bytes)) => {
                let mut bytes = bytes;
                if bytes.len() == 0 {
                    if self.received.len() == 0 {
                        self.phase = ConnectionPhase::Closed;
                        assert(self.received@ =~= Seq::<u8>::empty());
                        ConnectionAction::Close
                    } else {
                        self.phase = ConnectionPhase::Submitting;
                        let payload = self.received.split_off(0);
                        assert(payload@ =~= old(self).received@);
                        assert(self.received@ =~= Seq::<u8>::empty());
                        ConnectionAction::Submit(payload)
                    }
                } else {
                    let limit = self.remaining();
                    if bytes.len() > limit {
                        bytes.truncate(limit);
                    }
                    self.received.append(&mut bytes);
                    let limit = self.remaining();
                    if limit == 0 {
                        self.phase = ConnectionPhase::Submitting;
                        let ghost gathered = self.received@;
                        let payload = self.received.split_off(0);
                        assert(payload@ =~= gathered);
                        assert(self.received@ =~= Seq::<u8>::empty());
                        ConnectionAction::Submit(payload)
                    } else {
                        ConnectionAction::Read { limit }
                    }
                }
            },
            (ConnectionPhase::Reading, ConnectionEvent::ReadFailed) => {
                self.phase = ConnectionPhase::Closed;
                self.received.clear();
                ConnectionAction::Fail(ConnectionError::Read)
            },
            (ConnectionPhase::Submitting, ConnectionEvent::Submitted { accepted }) => {
                self.phase = ConnectionPhase::Closed;
                self.received.clear();
                if accepted {
                    ConnectionAction::Close
                } else {
                    ConnectionAction::Fail(ConnectionError::Rejected)
                }
            },
            _ => ConnectionAction::Idle,
        }
    }

    /// Where the handling stands.
    pub fn phase(&self) -> (phase: ConnectionPhase)
        ensures
            phase == self@.phase,
    {
        self.phase
    }
}

/// The run of a connection over a sequence of events: the state it ends in and the
/// actions it answered with, one per event.
pub open spec fn connection_run(s: ConnectionState, events: Seq<ConnectionEventView>) -> (
    ConnectionState,
    Seq<ConnectionActionView>,
)
    decreases events.len(),
{
    if events.len() == 0 {
        (s, Seq::empty())
    } else {
        let (before, actions) = connection_run(s, events.drop_last());
        let (after, action) = connection_step(before, events.last());
        (after, actions.push(action))
    }
}

/// The state in which the connection takes the event at `index`.
pub open spec fn connection_state_at(
    s: ConnectionState,
    events: Seq<ConnectionEventView>,
    index: int,
) -> ConnectionState {
    connection_run(s, events.take(index)).0
}

/// All the bytes that the reads among a sequence of events returned, in order.
pub open spec fn bytes_read(events: Seq<ConnectionEventView>) -> Seq<u8>
    decreases events.len(),
{
    if events.len() == 0 {
        Seq::empty()
    } else {
        match events.last() {
            ConnectionEventView::Read(bytes) => bytes_read(events.drop_last()) + bytes,
            _ => bytes_read(events.drop_last()),
        }
    }
}

/// The event is a read that returned at least one byte.
pub open spec fn yields_bytes(event: ConnectionEventView) -> bool {
    event matches ConnectionEventView::Read(bytes) && bytes.len() > 0
}

/// How far the handling of a connection has come.
pub open spec fn progress(phase: ConnectionPhase) -> nat {
    match phase {
        ConnectionPhase::Reading => 0,
        ConnectionPhase::Submitting => 1,
        ConnectionPhase::Closed => 2,
    }
}

/// A run answers with as many actions as it takes events.
pub proof fn lemma_connection_run_len(s: ConnectionState, events: Seq<ConnectionEventView>)
    ensures
        connection_run(s, events).1.len() == events.len(),
    decreases events.len(),
{
    if events.len() > 0 {
        lemma_connection_run_len(s, events.drop_last());
    }
}

/// A run answers each event with the action that the transition function gives in the
/// state reached by the events before it.
pub proof fn lemma_connection_run_index(
    s: ConnectionState,
    events: Seq<ConnectionEventView>,
    index: int,
)
    requires
        0 <= index < events.len(),
    ensures
        connection_run(s, events).1.len() == events.len(),
        connection_run(s, events).1[index] == connection_step(
            connection_state_at(s, events, index),
            events[index],
        ).1,
        connection_state_at(s, events, index + 1) == connection_step(
            connection_state_at(s, events, index),
            events[index],
        ).0,
    decreases events.len(),
{
    lemma_connection_run_len(s, events);
    assert(events.take(index + 1).drop_last() =~= events.take(index));
    if index == events.len() - 1 {
        assert(events.take(index) =~= events.drop_last());
    } else {
        lemma_connection_run_index(s, events.drop_last(), index);
        lemma_connection_run_len(s, events.drop_last());
        assert(events.drop_last().take(index) =~= events.take(index));
    }
}

/// The handling of a connection only moves on: from reading to submitting to closed.
pub proof fn lemma_connection_moves_on(
    s: ConnectionState,
    events: Seq<ConnectionEventView>,
    from: int,
    to: int,
)
    requires
        0 <= from <= to <= events.len(),
    ensures
        progress(connection_state_at(s, events, from).phase) <= progress(
            connection_state_at(s, events, to).phase,
        ),
    decreases to - from,
{
    if from < to {
        lemma_connection_moves_on(s, events, from, to - 1);
        lemma_connection_run_index(s, events, to - 1);
    }
}

/// While a new connection is still being read, its buffer holds all the bytes read so
/// far, and is not full.
pub proof fn lemma_buffer_holds_what_was_read(events: Seq<ConnectionEventView>, index: int)
    requires
        0 <= index <= events.len(),
        connection_state_at(connection_start(), events, index).phase == ConnectionPhase::Reading,
    ensures
        connection_state_at(connection_start(), events, index).received == bytes_read(
            events.take(index),
        ),
        bytes_read(events.take(index)).len() < SOCKET_BUFFER_SIZE,
    decreases index,
{
    let start = connection_start();
    if index == 0 {
        assert(events.take(0) =~= Seq::<ConnectionEventView>::empty());
        assert(bytes_read(events.take(0)) =~= Seq::<u8>::empty());
    } else {
        lemma_connection_run_index(start, events, index - 1);
        lemma_connection_moves_on(start, events, index - 1, index);
        lemma_buffer_holds_what_was_read(events, index - 1);
        assert(events.take(index).drop_last() =~= events.take(index - 1));
        assert(events.take(index).last() == events[index - 1]);
        let before = connection_state_at(start, events, index - 1);
        match events[index - 1] {
            ConnectionEventView::Read(bytes) => {
                assert(bytes.len() <= room(before.received));
                assert(connection_state_at(start, events, index).received =~= bytes_read(
                    events.take(index),
                ));
            },
            _ => {},
        }
    }
}

/// One submission at most. Whatever is reported about a connection, its handling asks
/// for a submission no more than once; a rejected payload is not submitted again.
pub proof fn lemma_one_submission_at_most(
    s: ConnectionState,
    events: Seq<ConnectionEventView>,
    first: int,
    second: int,
)
    requires
        0 <= first <= second < events.len(),
        connection_run(s, events).1[first] is Submit,
        connection_run(s, events).1[second] is Submit,
    ensures
        first == second,
{
    lemma_connection_run_index(s, events, first);
    lemma_connection_run_index(s, events, second);
    if first < second {
        lemma_connection_moves_on(s, events, first + 1, second);
    }
}

/// What is submitted is what was read. The payload that the handling of a new connection
/// submits holds the bytes that the reads returned up to then, in order, cut to the
/// capacity of the working buffer; and it holds at least one byte.
pub proof fn lemma_submission_is_what_was_read(events: Seq<ConnectionEventView>, index: int)
    requires
        0 <= index < events.len(),
        connection_run(connection_start(), events).1[index] is Submit,
    ensures
        connection_run(connection_start(), events).1[index] == ConnectionActionView::Submit(
            capped(bytes_read(events.take(index + 1))),
        ),
        1 <= capped(bytes_read(events.take(index + 1))).len() <= SOCKET_BUFFER_SIZE,
{
    let start = connection_start();
    lemma_connection_run_index(start, events, index);
    lemma_buffer_holds_what_was_read(events, index);
    assert(events.take(index + 1).drop_last() =~= events.take(index));
    assert(events.take(index + 1).last() == events[index]);
    let before = connection_state_at(start, events, index);
    match events[index] {
        ConnectionEventView::Read(bytes) => {
            if bytes.len() > 0 {
                let all = before.received + bytes;
                assert(bytes_read(events.take(index + 1)) == all);
                if bytes.len() > room(before.received) {
                    assert(before.received + bytes.take(room(before.received) as int) =~= all.take(
                        SOCKET_BUFFER_SIZE as int,
                    ));
                }
            } else {
                assert(before.received + bytes =~= before.received);
            }
        },
        _ => {},
    }
}

/// A connection that yields bytes is submitted. If every read before the end of the
/// stream returned at least one byte, and there was at least one such read, then by the
/// end of the stream the handling of a new connection has asked for a submission.
pub proof fn lemma_bytes_are_submitted(events: Seq<ConnectionEventView>, end: int)
    requires
        0 < end < events.len(),
        events[end] == ConnectionEventView::Read(Seq::empty()),
        forall|k: int| 0 <= k < end ==> yields_bytes(#[trigger] events[k]),
    ensures
        exists|index: int|
            0 <= index <= end && (#[trigger] connection_run(connection_start(), events).1[index])
                is Submit,
{
    let start = connection_start();
    let actions = connection_run(start, events).1;
    lemma_still_reading_or_submitted(events, end, end);
    if !(exists|index: int| 0 <= index < end && (#[trigger] actions[index]) is Submit) {
        lemma_connection_run_index(start, events, end);
        assert(actions[end] is Submit);
    }
}

/// After at least one read that returned bytes, and while every read does, either a
/// submission has been asked for or the buffer holds at least one byte.
pub proof fn lemma_still_reading_or_submitted(events: Seq<ConnectionEventView>, end: int, upto: int)
    requires
        0 < upto <= end < events.len(),
        forall|k: int| 0 <= k < end ==> yields_bytes(#[trigger] events[k]),
    ensures
        (exists|index: int|
            0 <= index < upto && (#[trigger] connection_run(connection_start(), events).1[index])
                is Submit) || ({
            let s = connection_state_at(connection_start(), events, upto);
            s.phase == ConnectionPhase::Reading && 0 < s.received.len() < SOCKET_BUFFER_SIZE
        }),
    decreases upto,
{
    let start = connection_start();
    let actions = connection_run(start, events).1;
    lemma_connection_run_index(start, events, upto - 1);
    assert(yields_bytes(events[upto - 1]));
    if upto == 1 {
        assert(events.take(0) =~= Seq::<ConnectionEventView>::empty());
        if !(actions[0] is Submit) {
        }
    } else {
        lemma_still_reading_or_submitted(events, end, upto - 1);
        if exists|index: int| 0 <= index < upto - 1 && (#[trigger] actions[index]) is Submit {
        } else {
            if !(actions[upto - 1] is Submit) {
            }
        }
    }
}

/// Whatever is reported, the buffer of a connection is never full while it is read, and
/// is empty afterwards.
pub proof fn lemma_connection_stays_well_formed(
    s: ConnectionState,
    events: Seq<ConnectionEventView>,
)
    requires
        connection_wf(s),
    ensures
        connection_wf(connection_run(s, events).0),
    decreases events.len(),
{
    if events.len() > 0 {
        lemma_connection_stays_well_formed(s, events.drop_last());
    }
}

} // verus!
