use execution_bridge::events::{flatten_payloads, FinalizedEvent};
use execution_bridge::executor::{
    Executor, ExecutorAction, ExecutorEvent, ExecutorPhase, HaltReason, POLL_DELAY_MILLIS,
};
use execution_bridge::poller::{DecodeFailure, DecodePolicy};

fn decode(payload: &Vec<u8>) -> Option<String> {
    if payload.is_empty() {
        None
    } else {
        Some(format!("unit{:?}", payload))
    }
}

fn decode_all(payloads: &Vec<Vec<u8>>) -> Vec<Option<String>> {
    payloads.iter().map(decode).collect()
}

fn executed() -> ExecutorEvent<String> {
    ExecutorEvent::Executed { succeeded: true }
}

fn sleep() -> ExecutorAction<String> {
    ExecutorAction::Sleep { millis: 200 }
}

#[test]
fn poll_delay_is_200_milliseconds() {
    assert_eq!(POLL_DELAY_MILLIS, 200);
}

#[test]
fn new_executor_is_idle_at_cursor_zero() {
    let executor: Executor<String> = Executor::new();
    assert_eq!(executor.phase(), ExecutorPhase::Idle);
    assert_eq!(executor.cursor(), 0);
    assert_eq!(executor.pending(), 0);
}

#[test]
fn wake_asks_for_a_snapshot() {
    let mut executor: Executor<String> = Executor::new();
    assert_eq!(executor.poll(ExecutorEvent::Wake), ExecutorAction::Fetch);
    assert_eq!(executor.phase(), ExecutorPhase::Fetching);
}

#[test]
fn payload_counts_two_zero_one_are_dispatched_in_order() {
    let events = vec![
        FinalizedEvent::new(vec![vec![1, 1], vec![1, 2]]),
        FinalizedEvent::new(vec![]),
        FinalizedEvent::new(vec![vec![3, 1]]),
    ];
    let mut executor: Executor<String> = Executor::new();
    assert_eq!(executor.cursor(), 0);

    assert_eq!(executor.poll(ExecutorEvent::Wake), ExecutorAction::Fetch);
    let decoded = decode_all(&flatten_payloads(&events));
    assert_eq!(
        executor.poll(ExecutorEvent::Decoded(decoded)),
        ExecutorAction::Execute("unit[1, 1]".to_string())
    );
    assert_eq!(executor.cursor(), 3);
    assert_eq!(executor.poll(executed()), ExecutorAction::Execute("unit[1, 2]".to_string()));
    assert_eq!(executor.poll(executed()), ExecutorAction::Execute("unit[3, 1]".to_string()));
    assert_eq!(executor.poll(executed()), sleep());
    assert_eq!(executor.cursor(), 3);

    // A second poll with no new events: nothing is dispatched again, the executor
    // goes back to sleep.
    assert_eq!(executor.poll(ExecutorEvent::Wake), ExecutorAction::Fetch);
    let decoded = decode_all(&flatten_payloads(&events));
    assert_eq!(executor.poll(ExecutorEvent::Decoded(decoded)), sleep());
    assert_eq!(executor.cursor(), 3);
    assert_eq!(executor.pending(), 0);
    assert_eq!(executor.phase(), ExecutorPhase::Sleeping);
}

#[test]
fn empty_snapshot_reschedules() {
    let mut executor: Executor<String> = Executor::new();
    executor.poll(ExecutorEvent::Wake);
    assert_eq!(executor.poll(ExecutorEvent::Decoded(vec![])), sleep());
    assert_eq!(executor.phase(), ExecutorPhase::Sleeping);
    assert_eq!(executor.cursor(), 0);
}

#[test]
fn units_are_dispatched_one_at_a_time() {
    let mut executor: Executor<u32> = Executor::new();
    executor.poll(ExecutorEvent::Wake);
    let action = executor.poll(ExecutorEvent::Decoded(vec![Some(1), Some(2), Some(3)]));
    assert_eq!(action, ExecutorAction::Execute(1));
    assert_eq!(executor.phase(), ExecutorPhase::Executing);
    assert_eq!(executor.pending(), 2);
    // Nothing but the report of the execution moves the executor on.
    assert_eq!(executor.poll(ExecutorEvent::Wake), ExecutorAction::Idle);
    assert_eq!(
        executor.poll(ExecutorEvent::Decoded(vec![Some(1), Some(2), Some(3), Some(4)])),
        ExecutorAction::Idle
    );
    assert_eq!(executor.pending(), 2);
    assert_eq!(executor.cursor(), 3);
    assert_eq!(
        executor.poll(ExecutorEvent::Executed { succeeded: true }),
        ExecutorAction::Execute(2)
    );
}

#[test]
fn growing_log_is_drained_across_activations() {
    let log: Vec<u32> = (100..110).collect();
    let mut executor: Executor<u32> = Executor::new();
    let mut dispatched: Vec<u32> = Vec::new();
    for end in [0usize, 2, 2, 3, 7, 10, 10] {
        assert_eq!(executor.poll(ExecutorEvent::Wake), ExecutorAction::Fetch);
        let decoded: Vec<Option<u32>> = log[..end].iter().map(|u| Some(*u)).collect();
        let mut action = executor.poll(ExecutorEvent::Decoded(decoded));
        while let ExecutorAction::Execute(unit) = action {
            dispatched.push(unit);
            action = executor.poll(ExecutorEvent::Executed { succeeded: true });
        }
        assert_eq!(action, ExecutorAction::Sleep { millis: 200 });
        assert_eq!(executor.cursor(), end);
    }
    assert_eq!(dispatched, log);
}

#[test]
fn execution_failure_halts_for_good() {
    let mut executor: Executor<u32> = Executor::new();
    executor.poll(ExecutorEvent::Wake);
    executor.poll(ExecutorEvent::Decoded(vec![Some(1), Some(2)]));
    assert_eq!(
        executor.poll(ExecutorEvent::Executed { succeeded: false }),
        ExecutorAction::Halt(HaltReason::Execution)
    );
    assert_eq!(executor.phase(), ExecutorPhase::Halted);
    // Not retried, not skipped: the unit behind the failed one is never dispatched.
    assert_eq!(executor.pending(), 1);
    assert_eq!(executor.poll(ExecutorEvent::Executed { succeeded: true }), ExecutorAction::Idle);
    assert_eq!(executor.poll(ExecutorEvent::Wake), ExecutorAction::Idle);
    assert_eq!(
        executor.poll(ExecutorEvent::Decoded(vec![Some(1), Some(2), Some(3)])),
        ExecutorAction::Idle
    );
    assert_eq!(executor.cursor(), 2);
    assert_eq!(executor.phase(), ExecutorPhase::Halted);
}

#[test]
fn malformed_payload_halts_the_cycle() {
    let events = vec![FinalizedEvent::new(vec![vec![1], vec![], vec![3]])];
    let mut executor: Executor<String> = Executor::new();
    executor.poll(ExecutorEvent::Wake);
    let decoded = decode_all(&flatten_payloads(&events));
    assert_eq!(
        executor.poll(ExecutorEvent::Decoded(decoded)),
        ExecutorAction::Halt(HaltReason::Decode(DecodeFailure { index: 1 }))
    );
    assert_eq!(executor.phase(), ExecutorPhase::Halted);
    assert_eq!(executor.cursor(), 0);
    assert_eq!(executor.pending(), 0);
}

#[test]
fn malformed_payload_is_skipped_under_the_skip_policy() {
    let events = vec![FinalizedEvent::new(vec![vec![1], vec![], vec![3]])];
    let mut executor: Executor<String> = Executor::with_policy(DecodePolicy::Skip);
    executor.poll(ExecutorEvent::Wake);
    let decoded = decode_all(&flatten_payloads(&events));
    assert_eq!(
        executor.poll(ExecutorEvent::Decoded(decoded)),
        ExecutorAction::Execute("unit[1]".to_string())
    );
    assert_eq!(executor.poll(executed()), ExecutorAction::Execute("unit[3]".to_string()));
    assert_eq!(executor.poll(executed()), sleep());
    assert_eq!(executor.cursor(), 2);
}

#[test]
fn events_out_of_phase_change_nothing() {
    let mut executor: Executor<u32> = Executor::new();
    assert_eq!(executor.poll(ExecutorEvent::Executed { succeeded: true }), ExecutorAction::Idle);
    assert_eq!(executor.poll(ExecutorEvent::Executed { succeeded: false }), ExecutorAction::Idle);
    assert_eq!(executor.poll(ExecutorEvent::Decoded(vec![Some(1)])), ExecutorAction::Idle);
    assert_eq!(executor.phase(), ExecutorPhase::Idle);
    assert_eq!(executor.cursor(), 0);
    assert_eq!(executor.poll(ExecutorEvent::Wake), ExecutorAction::Fetch);
    assert_eq!(executor.poll(ExecutorEvent::Wake), ExecutorAction::Idle);
    assert_eq!(executor.phase(), ExecutorPhase::Fetching);
}

#[test]
fn sleeping_executor_wakes_to_a_new_fetch() {
    let mut executor: Executor<u32> = Executor::new();
    executor.poll(ExecutorEvent::Wake);
    assert_eq!(
        executor.poll(ExecutorEvent::Decoded(vec![])),
        ExecutorAction::Sleep { millis: POLL_DELAY_MILLIS }
    );
    assert_eq!(executor.poll(ExecutorEvent::Wake), ExecutorAction::Fetch);
}

#[test]
fn never_two_units_at_the_processor_under_any_interleaving() {
    // Every sequence of seven events over a small alphabet: count what is at the
    // processor, and what was dispatched against the cursor.
    let alphabet = 5usize;
    let length = 7u32;
    for code in 0..alphabet.pow(length) {
        let mut executor: Executor<u32> = Executor::new();
        let mut at_processor = 0i32;
        let mut dispatched = 0usize;
        let mut rest = code;
        for _ in 0..length {
            let event = match rest % alphabet {
                0 => ExecutorEvent::Wake,
                1 => ExecutorEvent::Decoded(vec![Some(1), Some(2)]),
                2 => ExecutorEvent::Decoded(vec![Some(1), Some(2), Some(3)]),
                3 => ExecutorEvent::Executed { succeeded: true },
                _ => ExecutorEvent::Executed { succeeded: false },
            };
            rest /= alphabet;
            let was_executed = matches!(event, ExecutorEvent::Executed { .. });
            let before = executor.phase();
            let cursor_before = executor.cursor();
            let action = executor.poll(event);
            if was_executed && before == ExecutorPhase::Executing {
                at_processor -= 1;
            }
            if matches!(action, ExecutorAction::Execute(_)) {
                at_processor += 1;
                dispatched += 1;
            }
            assert!(at_processor == 0 || at_processor == 1);
            assert!(executor.cursor() >= cursor_before);
            assert_eq!(dispatched + executor.pending(), executor.cursor());
        }
    }
}

#[test]
fn units_leave_in_log_order_whatever_else_is_reported() {
    let mut executor: Executor<u32> = Executor::new();
    let mut seen: Vec<u32> = Vec::new();
    let events = vec![
        ExecutorEvent::Executed { succeeded: true },
        ExecutorEvent::Wake,
        ExecutorEvent::Wake,
        ExecutorEvent::Decoded(vec![Some(10), Some(11), Some(12)]),
        ExecutorEvent::Decoded(vec![Some(10), Some(11), Some(12), Some(13)]),
        ExecutorEvent::Executed { succeeded: true },
        ExecutorEvent::Wake,
        ExecutorEvent::Executed { succeeded: true },
        ExecutorEvent::Executed { succeeded: true },
        ExecutorEvent::Wake,
        ExecutorEvent::Decoded(vec![Some(10), Some(11), Some(12), Some(13)]),
        ExecutorEvent::Executed { succeeded: true },
    ];
    for event in events {
        if let ExecutorAction::Execute(unit) = executor.poll(event) {
            seen.push(unit);
        }
    }
    assert_eq!(seen, vec![10, 11, 12, 13]);
    assert_eq!(executor.cursor(), 4);
}
