//! The execution cursor: incremental draining of an append-only log of decoded units.
//!
//! A snapshot of the log is decoded in full on every poll. The cursor remembers how many
//! units earlier polls have handed out, and a poll returns exactly the units beyond it.

use crate::events::{lemma_flatten_len, lemma_flatten_prefix, payload_count};
use vstd::prelude::*;

verus! {

/// What to do with a payload that does not decode.
#[derive(Clone, Copy, Debug, PartialEq, Eq, Structural)]
pub enum DecodePolicy {
    /// The first malformed payload stops the poll cycle.
    Halt,
    /// Malformed payloads are left out; the well-formed ones around them go on.
    Skip,
}

/// A payload that did not decode, by its position in the flattened snapshot.
#[derive(Clone, Copy, Debug, PartialEq, Eq, Structural)]
pub struct DecodeFailure {
    pub index: usize,
}

/// The units that decoded, in payload order.
pub open spec fn units_of<U>(decoded: Seq<Option<U>>) -> Seq<U>
    decreases decoded.len(),
{
    if decoded.len() == 0 {
        Seq::empty()
    } else {
        match decoded.last() {
            Some(unit) => units_of(decoded.drop_last()).push(unit),
            None => units_of(decoded.drop_last()),
        }
    }
}

/// Every payload decoded.
pub open spec fn all_decoded<U>(decoded: Seq<Option<U>>) -> bool {
    forall|i: int| 0 <= i < decoded.len() ==> (#[trigger] decoded[i]) is Some
}

/// `index` is the first payload that did not decode.
pub open spec fn first_failure<U>(decoded: Seq<Option<U>>, index: int) -> bool {
    &&& 0 <= index < decoded.len()
    &&& decoded[index] is None
    &&& forall|i: int| 0 <= i < index ==> (#[trigger] decoded[i]) is Some
}

/// The position of the first payload that did not decode, where there is one.
pub open spec fn first_failure_index<U>(decoded: Seq<Option<U>>) -> int {
    choose|index: int| first_failure(decoded, index)
}

/// There is at most one first failure.
pub proof fn lemma_first_failure_unique<U>(decoded: Seq<Option<U>>, index: int)
    requires
        first_failure(decoded, index),
    ensures
        first_failure_index(decoded) == index,
        !all_decoded(decoded),
{
    let chosen = first_failure_index(decoded);
    assert(first_failure(decoded, chosen));
    if chosen < index {
        assert(decoded[chosen] is Some);
    } else if index < chosen {
        assert(decoded[index] is Some);
    }
}

/// What gathering the units of a snapshot yields under a policy: the decoded units in
/// payload order, or, where the policy halts on a malformed payload, the position of the
/// first one.
pub open spec fn collected<U>(decoded: Seq<Option<U>>, policy: DecodePolicy) -> Result<
    Seq<U>,
    int,
> {
    if policy == DecodePolicy::Halt && !all_decoded(decoded) {
        Err(first_failure_index(decoded))
    } else {
        Ok(units_of(decoded))
    }
}

/// Where every payload decoded, the units are the payloads' decodings one for one.
pub proof fn lemma_units_of_all_decoded<U>(decoded: Seq<Option<U>>)
    requires
        all_decoded(decoded),
    ensures
        units_of(decoded).len() == decoded.len(),
        forall|i: int|
            0 <= i < decoded.len() ==> decoded[i] == Some(#[trigger] units_of(decoded)[i]),
    decreases decoded.len(),
{
    if decoded.len() > 0 {
        lemma_units_of_all_decoded(decoded.drop_last());
        assert(decoded.last() is Some);
    }
}

/// Gathers the decoded units of a snapshot under a policy.
///
/// `decoded` holds one entry per payload of the flattened snapshot, `None` where the
/// payload was malformed.
pub fn collect_units<U>(decoded: Vec<Option<U>>, policy: DecodePolicy) -> (result: Result<
    Vec<U>,
    DecodeFailure,
>)
    ensures
        match result {
            Ok(units) => collected(decoded@, policy) == Ok::<Seq<U>, int>(units@),
            Err(failure) => collected(decoded@, policy) == Err::<Seq<U>, int>(failure.index as int)
                && first_failure(decoded@, failure.index as int),
        },
{
    let mut units: Vec<U> = Vec::new();
    assert(decoded@.take(0) =~= Seq::<Option<U>>::empty());
    for item in it: decoded
        invariant
            it.seq() == decoded@,
            units@ == units_of(decoded@.take(it.index() as int)),
            policy == DecodePolicy::Halt ==> all_decoded(decoded@.take(it.index() as int)),
            policy == DecodePolicy::Halt ==> units@.len() == it.index(),
    {
        let ghost seen = decoded@.take(it.index() as int);
        let ghost grown = decoded@.take(it.index() + 1);
        assert(grown.drop_last() =~= seen);
        assert(grown.last() == item);
        match item {
            Some(unit) => {
                units.push(unit);
            },
            None => {
                match policy {
                    DecodePolicy::Halt => {
                        assert(decoded@[it.index() as int] is None);
                        assert forall|i: int| 0 <= i < it.index() implies (
                        #[trigger] decoded@[i]) is Some by {
                            assert(seen[i] is Some);
                        }
                        proof {
                            lemma_first_failure_unique(decoded@, it.index() as int);
                        }
                        return Err(DecodeFailure { index: units.len() });
                    },
                    DecodePolicy::Skip => {},
                }
            },
        }
    }
    assert(decoded@.take(decoded@.len() as int) =~= decoded@);
    Ok(units)
}

/// The units that a poll hands out: those beyond the cursor, if the log has grown past it.
pub open spec fn poll_fresh<U>(cursor: nat, units: Seq<U>) -> Option<Seq<U>> {
    if units.len() > cursor {
        Some(units.skip(cursor as int))
    } else {
        None
    }
}

/// The cursor after a poll: the length of the log if it has grown, else unchanged.
pub open spec fn poll_cursor<U>(cursor: nat, units: Seq<U>) -> nat {
    if units.len() > cursor {
        units.len()
    } else {
        cursor
    }
}

/// The execution cursor: how many decoded units have been handed out so far.
pub struct NewPrograms {
    program_index: usize,
}

impl View for NewPrograms {
    type V = nat;

    closed spec fn view(&self) -> nat {
        self.program_index as nat
    }
}

impl NewPrograms {
    /// A cursor at the start of the log.
    pub fn new() -> (cursor: NewPrograms)
        ensures
            cursor@ == 0,
    {
        NewPrograms { program_index: 0 }
    }

    /// Compares the decoded log with the cursor. If the log holds more units than were
    /// handed out, returns exactly the new suffix and moves the cursor to the end of the
    /// log; otherwise returns `None` and leaves the cursor where it was.
    pub fn poll<U>(&mut self, programs: Vec<U>) -> (fresh: Option<Vec<U>>)
        ensures
            final(self)@ == poll_cursor(old(self)@, programs@),
            final(self)@ >= old(self)@,
            match fresh {
                Some(units) => poll_fresh(old(self)@, programs@) == Some(units@),
                None => poll_fresh(old(self)@, programs@) is None,
            },
    {
        let mut programs = programs;
        if programs.len() > self.program_index {
            let last_program_index = self.program_index;
            self.program_index = programs.len();
            let fresh = programs.split_off(last_program_index);
            Some(fresh)
        } else {
            None
        }
    }

    /// The index of the next unit.
    pub fn program_index(&self) -> (index: usize)
        ensures
            index == self@,
    {
        self.program_index
    }
}

/// Every snapshot extends the ones before it: nothing is removed or reordered.
pub open spec fn append_only<A>(snapshots: Seq<Seq<A>>) -> bool {
    forall|i: int, j: int|
        0 <= i <= j < snapshots.len() ==> (#[trigger] snapshots[i]).is_prefix_of(
            #[trigger] snapshots[j],
        )
}

/// The cursor after polling each snapshot in turn.
pub open spec fn cursor_after<U>(cursor: nat, snapshots: Seq<Seq<U>>) -> nat
    decreases snapshots.len(),
{
    if snapshots.len() == 0 {
        cursor
    } else {
        poll_cursor(cursor_after(cursor, snapshots.drop_last()), snapshots.last())
    }
}

/// Everything that polling each snapshot in turn hands out, in the order handed out.
pub open spec fn handed_out<U>(cursor: nat, snapshots: Seq<Seq<U>>) -> Seq<U>
    decreases snapshots.len(),
{
    if snapshots.len() == 0 {
        Seq::empty()
    } else {
        let earlier = snapshots.drop_last();
        match poll_fresh(cursor_after(cursor, earlier), snapshots.last()) {
            Some(fresh) => handed_out(cursor, earlier) + fresh,
            None => handed_out(cursor, earlier),
        }
    }
}

/// The cursor never moves back, whatever the snapshots hold.
pub proof fn lemma_cursor_never_moves_back<U>(cursor: nat, snapshots: Seq<Seq<U>>)
    ensures
        cursor_after(cursor, snapshots) >= cursor,
        forall|n: int|
            0 <= n <= snapshots.len() ==> #[trigger] cursor_after(cursor, snapshots.take(n))
                <= cursor_after(cursor, snapshots),
    decreases snapshots.len(),
{
    if snapshots.len() > 0 {
        let earlier = snapshots.drop_last();
        lemma_cursor_never_moves_back(cursor, earlier);
        assert forall|n: int| 0 <= n <= snapshots.len() implies #[trigger] cursor_after(
            cursor,
            snapshots.take(n),
        ) <= cursor_after(cursor, snapshots) by {
            if n == snapshots.len() {
                assert(snapshots.take(n) =~= snapshots);
            } else {
                assert(snapshots.take(n) =~= earlier.take(n));
            }
        }
    } else {
        assert forall|n: int| 0 <= n <= snapshots.len() implies #[trigger] cursor_after(
            cursor,
            snapshots.take(n),
        ) <= cursor_after(cursor, snapshots) by {
            assert(snapshots.take(n) =~= snapshots);
        }
    }
}

/// No loss, no duplication. However many times an append-only log is polled, starting
/// from an empty cursor, the units handed out over all polls are the units of the latest
/// snapshot, each exactly once and in log order, and the cursor stands at its end.
pub proof fn lemma_no_loss_no_duplication<U>(snapshots: Seq<Seq<U>>)
    requires
        snapshots.len() > 0,
        append_only(snapshots),
    ensures
        handed_out(0, snapshots) == snapshots.last(),
        cursor_after(0, snapshots) == snapshots.last().len(),
    decreases snapshots.len(),
{
    let earlier = snapshots.drop_last();
    let latest = snapshots.last();
    if earlier.len() == 0 {
        assert(handed_out(0, earlier) =~= Seq::<U>::empty());
        assert(handed_out(0, snapshots) =~= latest);
    } else {
        assert(append_only(earlier)) by {
            assert forall|i: int, j: int| 0 <= i <= j < earlier.len() implies (
            #[trigger] earlier[i]).is_prefix_of(#[trigger] earlier[j]) by {
                assert(snapshots[i].is_prefix_of(snapshots[j]));
            }
        }
        lemma_no_loss_no_duplication(earlier);
        assert(earlier.last() == snapshots[snapshots.len() - 2]);
        assert(snapshots[snapshots.len() - 2].is_prefix_of(snapshots[snapshots.len() - 1]));
        assert(handed_out(0, snapshots) =~= latest);
    }
}

/// The units of a snapshot of events under a decoder: its payloads in event order and
/// then in the order inside each event, each one decoded.
pub open spec fn decoded_log<U>(
    decode: spec_fn(Seq<u8>) -> U,
    snapshot: Seq<Seq<Seq<u8>>>,
) -> Seq<U> {
    snapshot.flatten().map_values(decode)
}

/// The unit logs of a sequence of snapshots of events under a decoder.
pub open spec fn decoded_logs<U>(
    decode: spec_fn(Seq<u8>) -> U,
    snapshots: Seq<Seq<Seq<Seq<u8>>>>,
) -> Seq<Seq<U>> {
    snapshots.map_values(|snapshot: Seq<Seq<Seq<u8>>>| decoded_log(decode, snapshot))
}

/// Snapshots of events that only grow decode to logs of units that only grow.
pub proof fn lemma_decoded_logs_append_only<U>(
    decode: spec_fn(Seq<u8>) -> U,
    snapshots: Seq<Seq<Seq<Seq<u8>>>>,
)
    requires
        append_only(snapshots),
    ensures
        append_only(decoded_logs(decode, snapshots)),
{
    let logs = decoded_logs(decode, snapshots);
    assert forall|i: int, j: int| 0 <= i <= j < logs.len() implies (
    #[trigger] logs[i]).is_prefix_of(#[trigger] logs[j]) by {
        assert(snapshots[i].is_prefix_of(snapshots[j]));
        lemma_flatten_prefix(snapshots[i], snapshots[j]);
    }
}

/// Ordering. For events with payload counts c1, .., cn, polling hands out exactly
/// c1 + .. + cn units, in the order of the flattened payloads, however many polls of
/// however many intermediate snapshots it takes to get there.
pub proof fn lemma_polls_keep_payload_order<U>(
    decode: spec_fn(Seq<u8>) -> U,
    snapshots: Seq<Seq<Seq<Seq<u8>>>>,
)
    requires
        snapshots.len() > 0,
        append_only(snapshots),
    ensures
        handed_out(0, decoded_logs(decode, snapshots)) == decoded_log(decode, snapshots.last()),
        handed_out(0, decoded_logs(decode, snapshots)).len() == payload_count(snapshots.last()),
        cursor_after(0, decoded_logs(decode, snapshots)) == payload_count(snapshots.last()),
{
    lemma_decoded_logs_append_only(decode, snapshots);
    lemma_no_loss_no_duplication(decoded_logs(decode, snapshots));
    lemma_flatten_len(snapshots.last());
}

} // verus!
