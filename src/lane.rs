//! The queue state of one destination: its pending PDUs, the batch held in
//! flight under the reservation marker, and its failure record.

use vstd::prelude::*;
use crate::key::{Destination, bytes_equal, copy_ids, ids_view, pdu_id_ok};

verus! {

/// Largest number of PDUs in one transaction.
pub const BATCH_CAP: usize = 30;

/// The largest count that a failure record holds.
pub const MAX_FAILURES: u32 = 0xffff_ffff;

/// What a lane holds, as mathematical values.
pub struct LaneView {
    /// PDU ids waiting, oldest first.
    pub pending: Seq<Seq<u8>>,
    /// PDU ids reserved for (or sent in) the current transaction.
    pub in_flight: Seq<Seq<u8>>,
    /// Whether the reservation marker is held.
    pub marker: bool,
    /// Whether a transaction is out and unanswered.
    pub sending: bool,
    /// Consecutive failures since the last success.
    pub failures: nat,
    /// When the last failure was recorded, in seconds.
    pub last_failure: nat,
}

/// A destination that holds nothing.
pub open spec fn idle_lane() -> LaneView {
    LaneView {
        pending: Seq::empty(),
        in_flight: Seq::empty(),
        marker: false,
        sending: false,
        failures: 0,
        last_failure: 0,
    }
}

/// Every id of `s` can stand in a key.
pub open spec fn ids_ok(s: Seq<Seq<u8>>) -> bool {
    forall|i: int| 0 <= i < s.len() ==> pdu_id_ok(#[trigger] s[i])
}

/// No id is in both sequences.
pub open spec fn disjoint(a: Seq<Seq<u8>>, b: Seq<Seq<u8>>) -> bool {
    forall|i: int, j: int| 0 <= i < a.len() && 0 <= j < b.len() ==> #[trigger] a[i] != #[trigger] b[j]
}

/// The invariant of a lane: the marker is held exactly while a batch is
/// reserved, at most one transaction is out and it carries that batch, the
/// batch is capped, and every id is valid and queued once.
pub open spec fn lane_wf(l: LaneView) -> bool {
    &&& l.marker == (l.in_flight.len() > 0)
    &&& l.sending ==> l.in_flight.len() > 0
    &&& l.in_flight.len() <= BATCH_CAP
    &&& ids_ok(l.pending)
    &&& ids_ok(l.in_flight)
    &&& l.pending.no_duplicates()
    &&& l.in_flight.no_duplicates()
    &&& disjoint(l.pending, l.in_flight)
}

/// Number of pending ids that the next fresh batch takes.
pub open spec fn batch_len(l: LaneView) -> int {
    if l.pending.len() < BATCH_CAP {
        l.pending.len() as int
    } else {
        BATCH_CAP as int
    }
}

/// The ids that the next transaction of the lane carries: the reserved
/// batch if one is held, else the oldest pending ids up to the cap.
pub open spec fn next_batch(l: LaneView) -> Seq<Seq<u8>> {
    if l.in_flight.len() > 0 {
        l.in_flight
    } else {
        l.pending.take(batch_len(l))
    }
}

/// The lane once its next transaction has started (unchanged when there
/// is nothing to send).
pub open spec fn started(l: LaneView) -> LaneView {
    if l.in_flight.len() > 0 {
        LaneView { sending: true, ..l }
    } else if l.pending.len() > 0 {
        LaneView {
            pending: l.pending.skip(batch_len(l)),
            in_flight: l.pending.take(batch_len(l)),
            marker: true,
            sending: true,
            ..l
        }
    } else {
        l
    }
}

/// The lane after its transaction was acknowledged: the batch is gone, the
/// marker released and the failure record cleared.
pub open spec fn succeeded(l: LaneView) -> LaneView {
    LaneView {
        in_flight: Seq::empty(),
        marker: false,
        sending: false,
        failures: 0,
        last_failure: 0,
        ..l
    }
}

/// The lane after its transaction failed at `now`: the batch and its marker
/// stay reserved, so the next admitted attempt resends that batch first, and
/// one more failure is counted.
pub open spec fn failed(l: LaneView, now: nat) -> LaneView {
    LaneView {
        sending: false,
        failures: if l.failures < MAX_FAILURES { l.failures + 1 } else { l.failures },
        last_failure: now,
        ..l
    }
}

/// The queue state of one destination; `model` gives its meaning.
pub struct Lane {
    pub dest: Destination,
    /// Pending PDU ids, oldest first.
    pub pending: Vec<Vec<u8>>,
    /// The reserved batch.
    pub in_flight: Vec<Vec<u8>>,
    /// The reservation marker.
    pub marker: bool,
    /// A transaction is out.
    pub sending: bool,
    /// Consecutive failures.
    pub failures: u32,
    /// Time of the last failure, in seconds.
    pub last_failure: u64,
}

/// Whether `id` occurs in `v`.
fn holds_id(v: &Vec<Vec<u8>>, id: &[u8]) -> (r: bool)
    ensures
        r == ids_view(v@).contains(id@),
{
    let mut i: usize = 0;
    while i < v.len()
        invariant
            0 <= i <= v@.len(),
            forall|j: int| 0 <= j < i ==> ids_view(v@)[j] != id@,
        decreases v@.len() - i,
    {
        if bytes_equal(v[i].as_slice(), id) {
            assert(ids_view(v@)[i as int] == id@);
            return true;
        }
        i += 1;
    }
    false
}

impl Lane {
    pub open spec fn model(&self) -> LaneView {
        LaneView {
            pending: ids_view(self.pending@),
            in_flight: ids_view(self.in_flight@),
            marker: self.marker,
            sending: self.sending,
            failures: self.failures as nat,
            last_failure: self.last_failure as nat,
        }
    }

    /// An empty lane for `dest`.
    pub fn new(dest: Destination) -> (r: Lane)
        ensures
            r.dest@ == dest@,
            r.model() == idle_lane(),
    {
        let r = Lane {
            dest,
            pending: Vec::new(),
            in_flight: Vec::new(),
            marker: false,
            sending: false,
            failures: 0,
            last_failure: 0,
        };
        assert(r.model().pending =~= Seq::<Seq<u8>>::empty());
        assert(r.model().in_flight =~= Seq::<Seq<u8>>::empty());
        r
    }

    /// Whether `id` is queued here, pending or in flight.
    pub fn holds(&self, id: &[u8]) -> (r: bool)
        ensures
            r == (self.model().pending.contains(id@) || self.model().in_flight.contains(id@)),
    {
        holds_id(&self.pending, id) || holds_id(&self.in_flight, id)
    }

    /// Whether `id` is reserved here.
    pub fn holds_in_flight(&self, id: &[u8]) -> (r: bool)
        ensures
            r == self.model().in_flight.contains(id@),
    {
        holds_id(&self.in_flight, id)
    }

    /// Queues `id` behind the pending ids.
    pub fn push_pending(&mut self, id: Vec<u8>)
        requires
            lane_wf(old(self).model()),
            pdu_id_ok(id@),
            !old(self).model().pending.contains(id@),
            !old(self).model().in_flight.contains(id@),
        ensures
            final(self).dest == old(self).dest,
            final(self).model() == (LaneView { pending: old(self).model().pending.push(id@), ..old(self).model() }),
            lane_wf(final(self).model()),
    {
        let ghost l = self.model();
        let ghost v = id@;
        self.pending.push(id);
        assert(self.model().pending =~= l.pending.push(v));
        assert(self.model().in_flight =~= l.in_flight);
        let ghost n = self.model();
        assert forall|i: int, j: int| 0 <= i < n.pending.len() && 0 <= j < n.in_flight.len()
            implies #[trigger] n.pending[i] != #[trigger] n.in_flight[j] by {
            if i == l.pending.len() {
                assert(l.in_flight.contains(n.in_flight[j]));
            }
        }
        assert forall|i: int, j: int| 0 <= i < n.pending.len() && 0 <= j < n.pending.len() && i != j
            implies n.pending[i] != n.pending[j] by {
            if i == l.pending.len() {
                assert(l.pending.contains(n.pending[j]));
            } else if j == l.pending.len() {
                assert(l.pending.contains(n.pending[i]));
            }
        }
    }

    /// Starts the next transaction, if there is anything to send, and
    /// returns its PDU ids.
    pub fn start(&mut self) -> (r: Option<Vec<Vec<u8>>>)
        requires
            lane_wf(old(self).model()),
            !old(self).sending,
        ensures
            final(self).dest == old(self).dest,
            final(self).model() == started(old(self).model()),
            lane_wf(final(self).model()),
            r is Some <==> next_batch(old(self).model()).len() > 0,
            r matches Some(b) ==> ids_view(b@) == next_batch(old(self).model()),
    {
        let ghost l = self.model();
        if self.in_flight.len() > 0 {
            self.sending = true;
            return Some(copy_ids(&self.in_flight));
        }
        if self.pending.len() == 0 {
            assert(l.pending.take(0) =~= Seq::<Seq<u8>>::empty());
            return None;
        }
        let n: usize = if self.pending.len() < BATCH_CAP { self.pending.len() } else { BATCH_CAP };
        let rest = self.pending.split_off(n);
        std::mem::swap(&mut self.pending, &mut self.in_flight);
        self.pending = rest;
        self.marker = true;
        self.sending = true;
        let ghost m = self.model();
        assert(m.in_flight =~= l.pending.take(n as int));
        assert(m.pending =~= l.pending.skip(n as int));
        assert(m == started(l));
        assert forall|i: int, j: int| 0 <= i < m.pending.len() && 0 <= j < m.in_flight.len()
            implies #[trigger] m.pending[i] != #[trigger] m.in_flight[j] by {
            assert(m.pending[i] == l.pending[i + n]);
            assert(m.in_flight[j] == l.pending[j]);
        }
        assert forall|i: int, j: int| 0 <= i < m.pending.len() && 0 <= j < m.pending.len() && i != j
            implies m.pending[i] != m.pending[j] by {
            assert(m.pending[i] == l.pending[i + n]);
            assert(m.pending[j] == l.pending[j + n]);
        }
        assert forall|i: int| 0 <= i < m.pending.len() implies pdu_id_ok(#[trigger] m.pending[i]) by {
            assert(m.pending[i] == l.pending[i + n]);
        }
        Some(copy_ids(&self.in_flight))
    }

    /// Records that the transaction out was acknowledged.
    pub fn succeed(&mut self)
        requires
            lane_wf(old(self).model()),
            old(self).sending,
        ensures
            final(self).dest == old(self).dest,
            final(self).model() == succeeded(old(self).model()),
            lane_wf(final(self).model()),
    {
        let ghost l = self.model();
        self.in_flight = Vec::new();
        self.marker = false;
        self.sending = false;
        self.failures = 0;
        self.last_failure = 0;
        assert(self.model().in_flight =~= Seq::<Seq<u8>>::empty());
        assert(self.model() == succeeded(l));
    }

    /// Records that the transaction out failed at `now`.
    pub fn fail(&mut self, now: u64)
        requires
            lane_wf(old(self).model()),
            old(self).sending,
        ensures
            final(self).dest == old(self).dest,
            final(self).model() == failed(old(self).model(), now as nat),
            lane_wf(final(self).model()),
    {
        self.sending = false;
        if self.failures < MAX_FAILURES {
            self.failures = self.failures + 1;
        }
        self.last_failure = now;
    }

    /// Takes back a PDU id found reserved when the store is reopened; it is
    /// kept while the batch is under its cap.
    pub fn restore(&mut self, id: Vec<u8>) -> (r: bool)
        requires
            lane_wf(old(self).model()),
            !old(self).sending,
        ensures
            final(self).dest == old(self).dest,
            r == (pdu_id_ok(id@) && !old(self).model().pending.contains(id@)
                && !old(self).model().in_flight.contains(id@)
                && old(self).model().in_flight.len() < BATCH_CAP),
            r ==> final(self).model() == (LaneView {
                in_flight: old(self).model().in_flight.push(id@),
                marker: true,
                ..old(self).model()
            }),
            !r ==> final(self).model() == old(self).model(),
            lane_wf(final(self).model()),
    {
        let ghost l = self.model();
        let ghost v = id@;
        if !valid_id(id.as_slice()) || self.holds(id.as_slice()) || self.in_flight.len() >= BATCH_CAP {
            return false;
        }
        self.in_flight.push(id);
        self.marker = true;
        assert(self.model().in_flight =~= l.in_flight.push(v));
        let ghost n = self.model();
        assert forall|i: int, j: int| 0 <= i < n.pending.len() && 0 <= j < n.in_flight.len()
            implies #[trigger] n.pending[i] != #[trigger] n.in_flight[j] by {
            if j == l.in_flight.len() {
                assert(l.pending.contains(n.pending[i]));
            }
        }
        assert forall|i: int, j: int| 0 <= i < n.in_flight.len() && 0 <= j < n.in_flight.len() && i != j
            implies n.in_flight[i] != n.in_flight[j] by {
            if i == l.in_flight.len() {
                assert(l.in_flight.contains(n.in_flight[j]));
            } else if j == l.in_flight.len() {
                assert(l.in_flight.contains(n.in_flight[i]));
            }
        }
        true
    }
}

/// Whether `id` can stand in a key as a PDU id.
pub fn valid_id(id: &[u8]) -> (r: bool)
    ensures
        r == pdu_id_ok(id@),
{
    if id.len() == 0 {
        return false;
    }
    let mut i: usize = 0;
    while i < id.len()
        invariant
            0 <= i <= id@.len(),
            forall|j: int| 0 <= j < i ==> id@[j] != crate::key::SEPARATOR,
        decreases id@.len() - i,
    {
        if id[i] == crate::key::SEPARATOR {
            assert(id@.contains(crate::key::SEPARATOR));
            return false;
        }
        i += 1;
    }
    true
}

} // verus!
