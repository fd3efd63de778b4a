use execution_bridge::poller::{collect_units, DecodeFailure, DecodePolicy, NewPrograms};

#[test]
fn new_cursor_starts_at_zero() {
    assert_eq!(NewPrograms::new().program_index(), 0);
}

#[test]
fn first_poll_returns_everything() {
    let mut cursor = NewPrograms::new();
    assert_eq!(cursor.poll(vec![10, 20, 30]), Some(vec![10, 20, 30]));
    assert_eq!(cursor.program_index(), 3);
}

#[test]
fn poll_of_an_empty_log_makes_no_progress() {
    let mut cursor = NewPrograms::new();
    assert_eq!(cursor.poll(Vec::<u32>::new()), None);
    assert_eq!(cursor.program_index(), 0);
}

#[test]
fn poll_returns_exactly_the_new_suffix() {
    let mut cursor = NewPrograms::new();
    assert_eq!(cursor.poll(vec!['a', 'b']), Some(vec!['a', 'b']));
    assert_eq!(cursor.poll(vec!['a', 'b', 'c', 'd', 'e']), Some(vec!['c', 'd', 'e']));
    assert_eq!(cursor.program_index(), 5);
}

#[test]
fn poll_of_an_unchanged_log_returns_nothing() {
    let mut cursor = NewPrograms::new();
    assert_eq!(cursor.poll(vec![1, 2, 3]), Some(vec![1, 2, 3]));
    assert_eq!(cursor.poll(vec![1, 2, 3]), None);
    assert_eq!(cursor.poll(vec![1, 2, 3]), None);
    assert_eq!(cursor.program_index(), 3);
}

#[test]
fn cursor_never_moves_back() {
    let mut cursor = NewPrograms::new();
    assert_eq!(cursor.poll(vec![1, 2, 3]), Some(vec![1, 2, 3]));
    assert_eq!(cursor.poll(vec![1]), None);
    assert_eq!(cursor.program_index(), 3);
}

#[test]
fn polls_over_a_growing_log_return_each_unit_once() {
    let log: Vec<u32> = (0..10).collect();
    let mut cursor = NewPrograms::new();
    let mut seen: Vec<u32> = Vec::new();
    for end in [0usize, 1, 1, 4, 4, 4, 9, 10, 10] {
        if let Some(fresh) = cursor.poll(log[..end].to_vec()) {
            seen.extend(fresh);
        }
    }
    assert_eq!(seen, log);
    assert_eq!(cursor.program_index(), 10);
}

#[test]
fn one_poll_or_many_hand_out_the_same() {
    let log: Vec<u8> = vec![5, 6, 7, 8];
    let mut at_once = NewPrograms::new();
    let whole = at_once.poll(log.clone()).unwrap();
    let mut stepwise = NewPrograms::new();
    let mut parts: Vec<u8> = Vec::new();
    for end in 1..=log.len() {
        parts.extend(stepwise.poll(log[..end].to_vec()).unwrap());
    }
    assert_eq!(whole, parts);
    assert_eq!(at_once.program_index(), stepwise.program_index());
}

#[test]
fn poll_keeps_duplicate_units() {
    let mut cursor = NewPrograms::new();
    assert_eq!(cursor.poll(vec![9, 9]), Some(vec![9, 9]));
    assert_eq!(cursor.poll(vec![9, 9, 9]), Some(vec![9]));
}

#[test]
fn collect_units_takes_all_when_all_decoded() {
    let decoded = vec![Some(1), Some(2), Some(3)];
    assert_eq!(collect_units(decoded.clone(), DecodePolicy::Halt), Ok(vec![1, 2, 3]));
    assert_eq!(collect_units(decoded, DecodePolicy::Skip), Ok(vec![1, 2, 3]));
}

#[test]
fn collect_units_of_nothing_is_nothing() {
    assert_eq!(collect_units(Vec::<Option<u8>>::new(), DecodePolicy::Halt), Ok(vec![]));
    assert_eq!(collect_units(Vec::<Option<u8>>::new(), DecodePolicy::Skip), Ok(vec![]));
}

#[test]
fn collect_units_halts_at_the_first_malformed_payload() {
    let decoded = vec![Some(1), None, Some(3), None];
    assert_eq!(collect_units(decoded, DecodePolicy::Halt), Err(DecodeFailure { index: 1 }));
}

#[test]
fn collect_units_halts_on_a_malformed_first_payload() {
    let decoded: Vec<Option<u8>> = vec![None, Some(3)];
    assert_eq!(collect_units(decoded, DecodePolicy::Halt), Err(DecodeFailure { index: 0 }));
}

#[test]
fn collect_units_halts_on_a_malformed_last_payload() {
    let decoded = vec![Some(1), Some(2), None];
    assert_eq!(collect_units(decoded, DecodePolicy::Halt), Err(DecodeFailure { index: 2 }));
}

#[test]
fn collect_units_skips_malformed_payloads() {
    let decoded = vec![None, Some(1), None, None, Some(3), None];
    assert_eq!(collect_units(decoded, DecodePolicy::Skip), Ok(vec![1, 3]));
}

#[test]
fn collect_units_skipping_everything_leaves_nothing() {
    let decoded: Vec<Option<u8>> = vec![None, None];
    assert_eq!(collect_units(decoded, DecodePolicy::Skip), Ok(vec![]));
}

#[test]
fn decoding_the_same_log_twice_collects_the_same_units() {
    let decode = |payload: &Vec<u8>| if payload.is_empty() { None } else { Some(payload.len()) };
    let payloads = vec![vec![1u8], vec![], vec![2, 3]];
    let first = collect_units(payloads.iter().map(decode).collect(), DecodePolicy::Skip);
    let second = collect_units(payloads.iter().map(decode).collect(), DecodePolicy::Skip);
    assert_eq!(first, second);
    assert_eq!(first, Ok(vec![1, 2]));
}
