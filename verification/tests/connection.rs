use execution_bridge::connection::{
    Connection, ConnectionAction, ConnectionError, ConnectionEvent, ConnectionPhase,
};
use execution_bridge::server::SOCKET_BUFFER_SIZE;

fn read(bytes: &[u8]) -> ConnectionEvent {
    ConnectionEvent::Read(bytes.to_vec())
}

fn end_of_stream() -> ConnectionEvent {
    ConnectionEvent::Read(Vec::new())
}

#[test]
fn new_connection_reads_up_to_the_buffer_size() {
    let connection = Connection::new();
    assert_eq!(connection.phase(), ConnectionPhase::Reading);
    assert_eq!(connection.remaining(), 4096);
}

#[test]
fn connection_without_bytes_submits_nothing() {
    let mut connection = Connection::new();
    assert_eq!(connection.step(end_of_stream()), ConnectionAction::Close);
    assert_eq!(connection.phase(), ConnectionPhase::Closed);
    // No submission was asked for, so none can be answered.
    assert_eq!(
        connection.step(ConnectionEvent::Submitted { accepted: true }),
        ConnectionAction::Idle
    );
}

#[test]
fn one_byte_is_submitted() {
    let mut connection = Connection::new();
    assert_eq!(connection.step(read(&[0x2a])), ConnectionAction::Read { limit: 4095 });
    assert_eq!(connection.step(end_of_stream()), ConnectionAction::Submit(vec![0x2a]));
    assert_eq!(connection.phase(), ConnectionPhase::Submitting);
    assert_eq!(
        connection.step(ConnectionEvent::Submitted { accepted: true }),
        ConnectionAction::Close
    );
    assert_eq!(connection.phase(), ConnectionPhase::Closed);
}

#[test]
fn chunks_are_gathered_in_order_into_one_payload() {
    let mut connection = Connection::new();
    assert_eq!(connection.step(read(&[1, 2])), ConnectionAction::Read { limit: 4094 });
    assert_eq!(connection.step(read(&[3])), ConnectionAction::Read { limit: 4093 });
    assert_eq!(connection.step(read(&[4, 5, 6])), ConnectionAction::Read { limit: 4090 });
    assert_eq!(connection.remaining(), 4090);
    assert_eq!(
        connection.step(end_of_stream()),
        ConnectionAction::Submit(vec![1, 2, 3, 4, 5, 6])
    );
}

#[test]
fn full_buffer_is_submitted_at_once() {
    let message: Vec<u8> = (0..SOCKET_BUFFER_SIZE).map(|i| (i % 251) as u8).collect();
    let mut connection = Connection::new();
    assert_eq!(
        connection.step(ConnectionEvent::Read(message.clone())),
        ConnectionAction::Submit(message)
    );
    assert_eq!(connection.phase(), ConnectionPhase::Submitting);
}

#[test]
fn one_byte_short_of_full_goes_on_reading() {
    let message = vec![7u8; SOCKET_BUFFER_SIZE - 1];
    let mut connection = Connection::new();
    assert_eq!(
        connection.step(ConnectionEvent::Read(message.clone())),
        ConnectionAction::Read { limit: 1 }
    );
    let mut whole = message;
    whole.push(8);
    assert_eq!(connection.step(read(&[8])), ConnectionAction::Submit(whole));
}

#[test]
fn message_is_capped_at_the_buffer_size() {
    let mut connection = Connection::new();
    connection.step(ConnectionEvent::Read(vec![1u8; 4000]));
    assert_eq!(connection.remaining(), 96);
    let action = connection.step(ConnectionEvent::Read(vec![2u8; 200]));
    let mut expected = vec![1u8; 4000];
    expected.extend(vec![2u8; 96]);
    assert_eq!(expected.len(), SOCKET_BUFFER_SIZE);
    assert_eq!(action, ConnectionAction::Submit(expected));
}

#[test]
fn read_failure_submits_nothing() {
    let mut connection = Connection::new();
    connection.step(read(&[1, 2, 3]));
    assert_eq!(
        connection.step(ConnectionEvent::ReadFailed),
        ConnectionAction::Fail(ConnectionError::Read)
    );
    assert_eq!(connection.phase(), ConnectionPhase::Closed);
    assert_eq!(connection.step(end_of_stream()), ConnectionAction::Idle);
}

#[test]
fn read_failure_on_a_fresh_connection_closes_it() {
    let mut connection = Connection::new();
    assert_eq!(
        connection.step(ConnectionEvent::ReadFailed),
        ConnectionAction::Fail(ConnectionError::Read)
    );
    assert_eq!(connection.phase(), ConnectionPhase::Closed);
}

#[test]
fn rejected_payload_is_dropped_and_not_retried() {
    let mut connection = Connection::new();
    connection.step(read(&[1]));
    assert_eq!(connection.step(end_of_stream()), ConnectionAction::Submit(vec![1]));
    assert_eq!(
        connection.step(ConnectionEvent::Submitted { accepted: false }),
        ConnectionAction::Fail(ConnectionError::Rejected)
    );
    assert_eq!(connection.phase(), ConnectionPhase::Closed);
    assert_eq!(connection.step(end_of_stream()), ConnectionAction::Idle);
    assert_eq!(connection.step(read(&[1])), ConnectionAction::Idle);
    assert_eq!(
        connection.step(ConnectionEvent::Submitted { accepted: false }),
        ConnectionAction::Idle
    );
}

#[test]
fn reads_after_the_submission_are_ignored() {
    let mut connection = Connection::new();
    connection.step(read(&[1]));
    connection.step(end_of_stream());
    assert_eq!(connection.step(read(&[2])), ConnectionAction::Idle);
    assert_eq!(connection.step(ConnectionEvent::ReadFailed), ConnectionAction::Idle);
    assert_eq!(connection.phase(), ConnectionPhase::Submitting);
}

#[test]
fn answer_without_a_submission_is_ignored() {
    let mut connection = Connection::new();
    assert_eq!(
        connection.step(ConnectionEvent::Submitted { accepted: true }),
        ConnectionAction::Idle
    );
    assert_eq!(connection.phase(), ConnectionPhase::Reading);
    assert_eq!(connection.remaining(), 4096);
}

#[test]
fn exactly_one_submission_per_connection_with_bytes() {
    for chunks in 1..6usize {
        let mut connection = Connection::new();
        let mut submissions = 0;
        let mut events: Vec<ConnectionEvent> = (0..chunks).map(|i| read(&[i as u8])).collect();
        events.push(end_of_stream());
        events.push(ConnectionEvent::Submitted { accepted: true });
        events.push(end_of_stream());
        for event in events {
            if let ConnectionAction::Submit(payload) = connection.step(event) {
                submissions += 1;
                assert_eq!(payload, (0..chunks).map(|i| i as u8).collect::<Vec<u8>>());
            }
        }
        assert_eq!(submissions, 1);
    }
}

#[test]
fn connections_are_independent() {
    let mut first = Connection::new();
    let mut second = Connection::new();
    first.step(read(&[1]));
    second.step(read(&[2, 2]));
    first.step(ConnectionEvent::ReadFailed);
    assert_eq!(second.step(end_of_stream()), ConnectionAction::Submit(vec![2, 2]));
}

#[test]
fn at_most_one_submission_under_any_sequence_of_events() {
    let length = 6u32;
    let alphabet = 6usize;
    for code in 0..alphabet.pow(length) {
        let mut rest = code;
        let mut connection = Connection::new();
        let mut submissions = 0;
        let mut read_so_far: Vec<u8> = Vec::new();
        for _ in 0..length {
            let event = match rest % alphabet {
                0 => end_of_stream(),
                1 => read(&[1]),
                2 => read(&[2, 3]),
                3 => ConnectionEvent::ReadFailed,
                4 => ConnectionEvent::Submitted { accepted: true },
                _ => ConnectionEvent::Submitted { accepted: false },
            };
            rest /= alphabet;
            if let ConnectionEvent::Read(bytes) = &event {
                read_so_far.extend(bytes);
            }
            if let ConnectionAction::Submit(payload) = connection.step(event) {
                submissions += 1;
                assert!(!payload.is_empty());
                assert_eq!(payload, read_so_far);
            }
        }
        assert!(submissions <= 1);
    }
}
