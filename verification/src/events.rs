//! Finalized events and the flattening of their payloads.

use vstd::prelude::*;

verus! {

/// The byte contents of a sequence of payloads.
pub open spec fn payload_seq(payloads: Seq<Vec<u8>>) -> Seq<Seq<u8>> {
    payloads.map_values(|p: Vec<u8>| p@)
}

/// An event that consensus has finalized: an ordered batch of transaction payloads.
/// Its position in the global sequence is its index in the snapshot that holds it.
pub struct FinalizedEvent {
    pub transactions: Vec<Vec<u8>>,
}

impl View for FinalizedEvent {
    type V = Seq<Seq<u8>>;

    open spec fn view(&self) -> Seq<Seq<u8>> {
        payload_seq(self.transactions@)
    }
}

/// The payload batches of a snapshot, one per event, in event order.
pub open spec fn snapshot_seq(events: Seq<FinalizedEvent>) -> Seq<Seq<Seq<u8>>> {
    events.map_values(|e: FinalizedEvent| e@)
}

/// How many payloads the events of a snapshot carry in all.
pub open spec fn payload_count(snapshot: Seq<Seq<Seq<u8>>>) -> nat
    decreases snapshot.len(),
{
    if snapshot.len() == 0 {
        0
    } else {
        payload_count(snapshot.drop_last()) + snapshot.last().len()
    }
}

impl FinalizedEvent {
    pub fn new(transactions: Vec<Vec<u8>>) -> (event: FinalizedEvent)
        ensures
            event.transactions == transactions,
    {
        FinalizedEvent { transactions }
    }
}

/// Flattening keeps every payload: its length is the sum of the events' payload counts.
pub proof fn lemma_flatten_len(snapshot: Seq<Seq<Seq<u8>>>)
    ensures
        snapshot.flatten().len() == payload_count(snapshot),
    decreases snapshot.len(),
{
    if snapshot.len() == 0 {
    } else {
        lemma_flatten_len(snapshot.drop_last());
        snapshot.drop_last().lemma_flatten_push(snapshot.last());
        assert(snapshot.drop_last().push(snapshot.last()) =~= snapshot);
    }
}

/// A snapshot that only grew flattens to an extension of the earlier flattening.
pub proof fn lemma_flatten_prefix(earlier: Seq<Seq<Seq<u8>>>, later: Seq<Seq<Seq<u8>>>)
    requires
        earlier.is_prefix_of(later),
    ensures
        earlier.flatten().is_prefix_of(later.flatten()),
    decreases later.len(),
{
    if earlier.len() == later.len() {
        assert(earlier =~= later);
    } else {
        assert(earlier.is_prefix_of(later.drop_last()));
        lemma_flatten_prefix(earlier, later.drop_last());
        later.drop_last().lemma_flatten_push(later.last());
        assert(later.drop_last().push(later.last()) =~= later);
    }
}

/// All payloads of a snapshot, in event order and then in the order inside each event.
pub fn flatten_payloads(events: &Vec<FinalizedEvent>) -> (payloads: Vec<Vec<u8>>)
    ensures
        payload_seq(payloads@) == snapshot_seq(events@).flatten(),
{
    let mut payloads: Vec<Vec<u8>> = Vec::new();
    let mut i: usize = 0;
    assert(snapshot_seq(events@).take(0) =~= Seq::<Seq<Seq<u8>>>::empty());
    assert(payload_seq(payloads@) =~= Seq::<Seq<u8>>::empty());
    while i < events.len()
        invariant
            i <= events.len(),
            payload_seq(payloads@) == snapshot_seq(events@).take(i as int).flatten(),
        decreases events.len() - i,
    {
        let event = &events[i];
        let ghost before = payloads@;
        let mut j: usize = 0;
        while j < event.transactions.len()
            invariant
                j <= event.transactions.len(),
                payload_seq(payloads@) == payload_seq(before) + event@.take(j as int),
            decreases event.transactions.len() - j,
        {
            let payload = event.transactions[j].clone();
            let ghost filled = payloads@;
            payloads.push(payload);
            proof {
                assert(payload@ =~= event.transactions[j as int]@);
                assert(payload_seq(filled.push(payload)) =~= payload_seq(filled).push(payload@));
                assert(event@.take(j + 1) =~= event@.take(j as int).push(event@[j as int]));
            }
            j += 1;
        }
        proof {
            let snapshot = snapshot_seq(events@);
            assert(event@.take(j as int) =~= event@);
            assert(snapshot.take(i + 1) =~= snapshot.take(i as int).push(event@));
            snapshot.take(i as int).lemma_flatten_push(event@);
        }
        i += 1;
    }
    assert(snapshot_seq(events@).take(i as int) =~= snapshot_seq(events@));
    payloads
}

} // verus!
