//! Properties of the sender that hold across its operations.

use vstd::prelude::*;
use crate::backoff::{admits_spec, window_spec};
use crate::key::{APPSERVICE_SIGIL, SEPARATOR, destination_of_head, first_separator, key_of, prefix_of};
use crate::lane::{LaneView, MAX_FAILURES, batch_len, failed, lane_wf, next_batch, started, succeeded};
use crate::scheduler::Scheduler;

verus! {

/// The order in which a destination's PDUs are delivered: the reserved
/// batch, then the pending ids, oldest first.
pub open spec fn queue(l: LaneView) -> Seq<Seq<u8>> {
    l.in_flight + l.pending
}

/// At every state, for every destination: the reservation marker is the
/// only key of the in-flight table that reads as a marker, so there is at
/// most one; it is held whenever PDUs are reserved; no PDU is both pending
/// and in flight; and a transaction out is always one under the marker.
pub proof fn lemma_queue_invariants(s: &Scheduler, d: (bool, Seq<u8>))
    requires
        s.wf(),
    ensures
        forall|i: int| 0 <= i < s.lane(d).in_flight.len() ==>
            key_of(d, #[trigger] s.lane(d).in_flight[i]) != prefix_of(d),
        s.lane(d).in_flight.len() > 0 ==> s.lane(d).marker,
        forall|id: Seq<u8>| !(s.lane(d).pending.contains(id) && #[trigger] s.lane(d).in_flight.contains(id)),
        s.lane(d).sending ==> s.lane(d).marker && s.lane(d).in_flight.len() > 0,
{
    s.lemma_wf_lane(d);
    let l = s.lane(d);
    assert forall|i: int| 0 <= i < l.in_flight.len() implies
        key_of(d, #[trigger] l.in_flight[i]) != prefix_of(d) by {
        assert(l.in_flight[i].len() > 0);
        assert(key_of(d, l.in_flight[i]).len() > prefix_of(d).len());
    }
    assert forall|id: Seq<u8>| !(l.pending.contains(id) && #[trigger] l.in_flight.contains(id)) by {
        if l.pending.contains(id) && l.in_flight.contains(id) {
            let i = choose|i: int| 0 <= i < l.pending.len() && l.pending[i] == id;
            let j = choose|j: int| 0 <= j < l.in_flight.len() && l.in_flight[j] == id;
            assert(l.pending[i] != l.in_flight[j]);
        }
    }
}

/// Enqueueing puts the new id at the end of the destination's queue.
pub proof fn lemma_enqueue_appends(l: LaneView, id: Seq<u8>)
    ensures
        queue(LaneView { pending: l.pending.push(id), ..l }) == queue(l).push(id),
{
    assert(queue(LaneView { pending: l.pending.push(id), ..l }) =~= queue(l).push(id));
}

/// Starting a transaction, and a failure, keep the queue as it is.
pub proof fn lemma_start_keeps_order(l: LaneView, now: nat)
    ensures
        queue(started(l)) == queue(l),
        queue(failed(l, now)) == queue(l),
{
    if l.in_flight.len() == 0 && l.pending.len() > 0 {
        let n = batch_len(l);
        assert(l.pending.take(n) + l.pending.skip(n) =~= l.pending);
        assert(l.in_flight + l.pending =~= l.pending);
    }
}

/// An acknowledgement removes exactly the batch that was sent from the
/// front of the queue.
pub proof fn lemma_success_drops_sent(l: LaneView)
    requires
        l.sending,
    ensures
        queue(succeeded(l)) == queue(l).skip(l.in_flight.len() as int),
{
    assert(queue(succeeded(l)) =~= queue(l).skip(l.in_flight.len() as int));
}

/// FIFO per destination: every batch is a prefix of the queue, so when a
/// PDU is sent, every PDU enqueued before it for that destination is sent
/// in the same transaction or went out earlier.
pub proof fn lemma_fifo(l: LaneView, i: int, j: int)
    requires
        lane_wf(l),
        0 <= i < j < queue(l).len(),
        next_batch(l).contains(queue(l)[j]),
    ensures
        next_batch(l) == queue(l).take(next_batch(l).len() as int),
        next_batch(l).contains(queue(l)[i]),
{
    let q = queue(l);
    let b = next_batch(l);
    let m = b.len() as int;
    if l.in_flight.len() > 0 {
        assert(b =~= q.take(m));
    } else {
        assert(q =~= l.pending);
        assert(b =~= q.take(m));
    }
    let k = choose|k: int| 0 <= k < b.len() && b[k] == q[j];
    if k != j {
        if j < l.in_flight.len() {
            assert(k < l.in_flight.len());
            assert(l.in_flight[k] != l.in_flight[j]);
        } else if k < l.in_flight.len() {
            assert(q[j] == l.pending[j - l.in_flight.len()]);
            assert(l.pending[j - l.in_flight.len()] != l.in_flight[k]);
        } else {
            assert(l.pending[k - l.in_flight.len()] != l.pending[j - l.in_flight.len()]);
        }
    }
    assert(b[i] == q[i]);
}

/// After `n` consecutive failures no transaction to the destination is
/// started before min(60·n², 86400) seconds have passed since the last
/// one; an acknowledgement clears the count.
pub proof fn lemma_backoff(l: LaneView, now: nat)
    ensures
        l.failures > 0 && now < l.last_failure + window_spec(l.failures) ==> !admits_spec(
            l.failures,
            l.last_failure,
            now,
        ),
        l.failures < MAX_FAILURES ==> failed(l, now).failures == l.failures + 1,
        failed(l, now).last_failure == now,
        succeeded(l).failures == 0,
        admits_spec(succeeded(l).failures, succeeded(l).last_failure, now),
{
}

/// A key gives back its destination, tag included, and its PDU id: the
/// separator that closes the prefix is the first one in the key, and what
/// stands before it names the destination. A server name cannot open with
/// the appservice sigil.
pub proof fn lemma_key_round_trip(d: (bool, Seq<u8>), pdu: Seq<u8>)
    requires
        !d.1.contains(SEPARATOR),
        !d.0 ==> d.1.len() == 0 || d.1[0] != APPSERVICE_SIGIL,
    ensures
        first_separator(key_of(d, pdu), prefix_of(d).len() - 1),
        destination_of_head(key_of(d, pdu).take(prefix_of(d).len() - 1)) == d,
        key_of(d, pdu).skip(prefix_of(d).len() as int) == pdu,
{
    let k = key_of(d, pdu);
    let n = prefix_of(d).len() - 1;
    let off: int = if d.0 { 1 } else { 0 };
    assert(n == off + d.1.len());
    assert forall|j: int| 0 <= j < n implies k[j] != SEPARATOR by {
        if j >= off {
            assert(k[j] == d.1[j - off]);
            if k[j] == SEPARATOR {
                assert(d.1.contains(SEPARATOR));
            }
        }
    }
    assert(k[n] == SEPARATOR);
    let head = k.take(n);
    if d.0 {
        assert(head.skip(1) =~= d.1);
    } else {
        assert(head =~= d.1);
    }
    assert(k.skip(prefix_of(d).len() as int) =~= pdu);
}

} // verus!
