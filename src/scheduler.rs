//! The coordinator: one lane per destination, and the decisions taken on
//! enqueue notifications, transaction completions and recovery.

use vstd::prelude::*;
use crate::backoff::{admits, admits_spec};
use crate::key::{
    Destination, SEPARATOR, decode_key, destination_of_head, encode_key, first_separator, ids_view,
    key_of, name_valid, pdu_id_ok, prefix_of,
};
use crate::store::{
    Table, Write, release_write, removal_writes, removals, reserve_spec,
    reserve_writes, writes_view,
};
use crate::lane::{
    Lane, LaneView, failed, idle_lane, lane_wf, next_batch, started, succeeded, BATCH_CAP,
};

verus! {

/// Lanes of distinct destinations.
pub open spec fn distinct_lanes(lanes: Seq<Lane>) -> bool {
    forall|i: int, j: int|
        0 <= i < lanes.len() && 0 <= j < lanes.len() && i != j ==> #[trigger] lanes[i].dest@
            != #[trigger] lanes[j].dest@
}

/// Whether some lane belongs to `d`.
pub open spec fn has_lane(lanes: Seq<Lane>, d: (bool, Seq<u8>)) -> bool {
    exists|i: int| 0 <= i < lanes.len() && #[trigger] lanes[i].dest@ == d
}

/// The state of destination `d`; a destination without a lane is idle.
pub open spec fn lane_in(lanes: Seq<Lane>, d: (bool, Seq<u8>)) -> LaneView {
    if has_lane(lanes, d) {
        lanes[choose|i: int| 0 <= i < lanes.len() && #[trigger] lanes[i].dest@ == d].model()
    } else {
        idle_lane()
    }
}

proof fn lemma_lane_at(lanes: Seq<Lane>, i: int)
    requires
        distinct_lanes(lanes),
        0 <= i < lanes.len(),
    ensures
        lane_in(lanes, lanes[i].dest@) == lanes[i].model(),
{
    let d = lanes[i].dest@;
    assert(has_lane(lanes, d));
    let j = choose|j: int| 0 <= j < lanes.len() && #[trigger] lanes[j].dest@ == d;
    if j != i {
        assert(lanes[i].dest@ != lanes[j].dest@);
    }
}

proof fn lemma_update(a: Seq<Lane>, b: Seq<Lane>, i: int)
    requires
        distinct_lanes(a),
        0 <= i < a.len(),
        b == a.update(i, b[i]),
        b[i].dest@ == a[i].dest@,
    ensures
        distinct_lanes(b),
        lane_in(b, a[i].dest@) == b[i].model(),
        forall|e: (bool, Seq<u8>)| e != a[i].dest@ ==> lane_in(b, e) == lane_in(a, e),
{
    assert(b.len() == a.len());
    assert forall|j: int, k: int| 0 <= j < b.len() && 0 <= k < b.len() && j != k
        implies #[trigger] b[j].dest@ != #[trigger] b[k].dest@ by {
        assert(a[j].dest@ != a[k].dest@);
    }
    lemma_lane_at(b, i);
    assert forall|e: (bool, Seq<u8>)| e != a[i].dest@ implies lane_in(b, e) == lane_in(a, e) by {
        if has_lane(a, e) {
            let j = choose|j: int| 0 <= j < a.len() && #[trigger] a[j].dest@ == e;
            assert(b[j] == a[j]);
            lemma_lane_at(a, j);
            lemma_lane_at(b, j);
        } else {
            if has_lane(b, e) {
                let j = choose|j: int| 0 <= j < b.len() && #[trigger] b[j].dest@ == e;
                assert(a[j].dest@ == e);
            }
        }
    }
}

proof fn lemma_push(a: Seq<Lane>, x: Lane)
    requires
        distinct_lanes(a),
        !has_lane(a, x.dest@),
        x.model() == idle_lane(),
    ensures
        distinct_lanes(a.push(x)),
        forall|e: (bool, Seq<u8>)| lane_in(a.push(x), e) == lane_in(a, e),
{
    let b = a.push(x);
    assert forall|j: int, k: int| 0 <= j < b.len() && 0 <= k < b.len() && j != k
        implies #[trigger] b[j].dest@ != #[trigger] b[k].dest@ by {
        if j == a.len() {
            assert(a[k].dest@ != x.dest@);
        } else if k == a.len() {
            assert(a[j].dest@ != x.dest@);
        } else {
            assert(a[j].dest@ != a[k].dest@);
        }
    }
    assert forall|e: (bool, Seq<u8>)| lane_in(b, e) == lane_in(a, e) by {
        if has_lane(a, e) {
            let j = choose|j: int| 0 <= j < a.len() && #[trigger] a[j].dest@ == e;
            assert(b[j] == a[j]);
            lemma_lane_at(a, j);
            lemma_lane_at(b, j);
        } else if e == x.dest@ {
            lemma_lane_at(b, a.len() as int);
        } else if has_lane(b, e) {
            let j = choose|j: int| 0 <= j < b.len() && #[trigger] b[j].dest@ == e;
            if j < a.len() {
                assert(a[j].dest@ == e);
            }
        }
    }
}

/// A lane that holds a reserved batch with no transaction out: after a
/// restart, what was in flight when the process stopped.
pub open spec fn resumable(l: LaneView) -> bool {
    !l.sending && l.in_flight.len() > 0
}

/// A lane after recovery has resent its reserved batch.
pub open spec fn resumed(l: LaneView) -> LaneView {
    if resumable(l) {
        started(l)
    } else {
        l
    }
}

/// A lane once it has taken note of PDU `id` (ignored when invalid or
/// already queued).
pub open spec fn noted(l: LaneView, id: Seq<u8>) -> LaneView {
    if pdu_id_ok(id) && !l.pending.contains(id) && !l.in_flight.contains(id) {
        LaneView { pending: l.pending.push(id), ..l }
    } else {
        l
    }
}

/// Whether a new transaction may start on the lane at `now`.
pub open spec fn may_start(l: LaneView, now: nat) -> bool {
    !l.sending && admits_spec(l.failures, l.last_failure, now)
}

/// The writes that starting the next transaction of `l` makes: a fresh
/// batch is reserved; a batch already reserved needs none.
pub open spec fn start_writes(d: (bool, Seq<u8>), l: LaneView) -> Seq<(Table, bool, Seq<u8>)> {
    if l.in_flight.len() == 0 && l.pending.len() > 0 {
        reserve_spec(d, next_batch(l))
    } else {
        Seq::empty()
    }
}

/// What a decision hands to the caller: writes to apply to the tables, in
/// order, and the PDU ids of a transaction to send, if one starts.
pub struct Transition {
    pub writes: Vec<Write>,
    pub send: Option<Vec<Vec<u8>>>,
}

/// Appends `more` to `out`.
pub fn append_writes(out: &mut Vec<Write>, more: Vec<Write>)
    ensures
        writes_view(final(out)@) == writes_view(old(out)@) + writes_view(more@),
{
    let ghost m = more@;
    let mut more = more;
    out.append(&mut more);
    assert(writes_view(out@) =~= writes_view(old(out)@) + writes_view(m));
}

/// Whether recovery takes back `id` into lane `l`: no transaction is out,
/// the id is valid and new to the lane, and the batch is under its cap.
pub open spec fn restorable(l: LaneView, id: Seq<u8>) -> bool {
    !l.sending && pdu_id_ok(id) && !l.pending.contains(id) && !l.in_flight.contains(id)
        && l.in_flight.len() < BATCH_CAP
}

/// A transaction to send: its destination and its PDU ids, in order.
pub struct Dispatch {
    pub dest: Destination,
    pub pdus: Vec<Vec<u8>>,
}

/// The per-destination queue state of the sender.
pub struct Scheduler {
    pub lanes: Vec<Lane>,
}

impl Scheduler {
    /// The state of destination `d`.
    pub open spec fn lane(&self, d: (bool, Seq<u8>)) -> LaneView {
        lane_in(self.lanes@, d)
    }

    /// One lane per destination, each keeping its invariant.
    pub open spec fn wf(&self) -> bool {
        &&& distinct_lanes(self.lanes@)
        &&& forall|i: int| 0 <= i < self.lanes@.len() ==> lane_wf(#[trigger] self.lanes@[i].model())
    }

    /// Every destination keeps the lane invariant.
    pub proof fn lemma_wf_lane(&self, d: (bool, Seq<u8>))
        requires
            self.wf(),
        ensures
            lane_wf(self.lane(d)),
    {
        if has_lane(self.lanes@, d) {
            let j = choose|j: int| 0 <= j < self.lanes@.len() && #[trigger] self.lanes@[j].dest@ == d;
            assert(lane_wf(self.lanes@[j].model()));
        } else {
            assert(idle_lane().pending =~= Seq::<Seq<u8>>::empty());
        }
    }

    /// A sender with nothing queued.
    pub fn new() -> (r: Scheduler)
        ensures
            r.wf(),
            forall|d: (bool, Seq<u8>)| r.lane(d) == idle_lane(),
    {
        Scheduler { lanes: Vec::new() }
    }

    fn find(&self, d: &Destination) -> (r: Option<usize>)
        ensures
            r matches Some(i) ==> i < self.lanes@.len() && self.lanes@[i as int].dest@ == d@,
            r is None ==> !has_lane(self.lanes@, d@),
    {
        let mut i: usize = 0;
        while i < self.lanes.len()
            invariant
                0 <= i <= self.lanes@.len(),
                forall|j: int| 0 <= j < i ==> self.lanes@[j].dest@ != d@,
            decreases self.lanes@.len() - i,
        {
            if self.lanes[i].dest.same(d) {
                return Some(i);
            }
            i += 1;
        }
        None
    }

    /// The index of the lane of `d`, added idle if missing.
    fn slot(&mut self, d: &Destination) -> (r: usize)
        requires
            old(self).wf(),
        ensures
            final(self).wf(),
            r < final(self).lanes@.len(),
            final(self).lanes@[r as int].dest@ == d@,
            forall|e: (bool, Seq<u8>)| final(self).lane(e) == old(self).lane(e),
    {
        match self.find(d) {
            Some(i) => i,
            None => {
                let lane = Lane::new(d.duplicate());
                proof {
                    lemma_push(self.lanes@, lane);
                }
                self.lanes.push(lane);
                assert(lane_wf(idle_lane())) by {
                    assert(idle_lane().pending =~= Seq::<Seq<u8>>::empty());
                }
                self.lanes.len() - 1
            }
        }
    }

    /// Takes note of PDU `id` newly pending for `d`. An id that is invalid
    /// or already queued for `d` is ignored.
    pub fn enqueue(&mut self, d: &Destination, id: Vec<u8>) -> (r: bool)
        requires
            old(self).wf(),
        ensures
            final(self).wf(),
            r == (pdu_id_ok(id@) && !old(self).lane(d@).pending.contains(id@)
                && !old(self).lane(d@).in_flight.contains(id@)),
            r ==> final(self).lane(d@) == (LaneView {
                pending: old(self).lane(d@).pending.push(id@),
                ..old(self).lane(d@)
            }),
            !r ==> final(self).lane(d@) == old(self).lane(d@),
            forall|e: (bool, Seq<u8>)| e != d@ ==> final(self).lane(e) == old(self).lane(e),
    {
        let i = self.slot(d);
        proof {
            lemma_lane_at(self.lanes@, i as int);
        }
        if !crate::lane::valid_id(id.as_slice()) || self.lanes[i].holds(id.as_slice()) {
            return false;
        }
        let ghost a = self.lanes@;
        self.lanes[i].push_pending(id);
        proof {
            lemma_update(a, self.lanes@, i as int);
        }
        true
    }

    /// Decides on an enqueue notification for `d` at `now` (seconds): when
    /// no transaction is out and the backoff window has passed, the next
    /// batch is reserved and returned; otherwise nothing is started. The
    /// table writes that go with it are what `notify` returns.
    pub fn on_enqueued(&mut self, d: &Destination, now: u64) -> (r: Option<Vec<Vec<u8>>>)
        requires
            old(self).wf(),
        ensures
            final(self).wf(),
            ({
                let l = old(self).lane(d@);
                if !l.sending && admits_spec(l.failures, l.last_failure, now as nat) {
                    &&& final(self).lane(d@) == started(l)
                    &&& (r is Some <==> next_batch(l).len() > 0)
                    &&& r matches Some(b) ==> ids_view(b@) == next_batch(l)
                } else {
                    &&& r is None
                    &&& final(self).lane(d@) == l
                }
            }),
            forall|e: (bool, Seq<u8>)| e != d@ ==> final(self).lane(e) == old(self).lane(e),
    {
        let i = self.slot(d);
        proof {
            lemma_lane_at(self.lanes@, i as int);
        }
        if self.lanes[i].sending || !admits(self.lanes[i].failures, self.lanes[i].last_failure, now) {
            return None;
        }
        let ghost a = self.lanes@;
        let r = self.lanes[i].start();
        proof {
            lemma_update(a, self.lanes@, i as int);
        }
        r
    }

    /// Records that the transaction out to `d` was acknowledged: its ids
    /// leave the in-flight table, and the next batch is reserved from what
    /// is pending or, with nothing pending, the marker is released.
    pub fn complete_success(&mut self, d: &Destination) -> (r: Transition)
        requires
            old(self).wf(),
            old(self).lane(d@).sending,
        ensures
            final(self).wf(),
            ({
                let l = old(self).lane(d@);
                let s = succeeded(l);
                &&& final(self).lane(d@) == started(s)
                &&& (r.send is Some <==> next_batch(s).len() > 0)
                &&& r.send matches Some(b) ==> ids_view(b@) == next_batch(s)
                &&& writes_view(r.writes@) == removals(d@, l.in_flight) + if next_batch(s).len() > 0 {
                    reserve_spec(d@, next_batch(s))
                } else {
                    seq![(Table::InFlight, false, prefix_of(d@))]
                }
            }),
            forall|e: (bool, Seq<u8>)| e != d@ ==> final(self).lane(e) == old(self).lane(e),
    {
        let i = self.slot(d);
        proof {
            lemma_lane_at(self.lanes@, i as int);
        }
        let mut writes = removal_writes(d, &self.lanes[i].in_flight);
        let ghost a = self.lanes@;
        self.lanes[i].succeed();
        let send = self.lanes[i].start();
        assert(self.lanes@ =~= a.update(i as int, self.lanes@[i as int]));
        proof {
            lemma_update(a, self.lanes@, i as int);
        }
        match send {
            Some(b) => {
                let more = reserve_writes(d, &b);
                append_writes(&mut writes, more);
                Transition { writes, send: Some(b) }
            },
            None => {
                let ghost w0 = writes_view(writes@);
                writes.push(release_write(d));
                assert(writes_view(writes@) =~= w0 + seq![(Table::InFlight, false, prefix_of(d@))]);
                Transition { writes, send: None }
            },
        }
    }

    /// Records that the transaction out to `d` failed at `now` (seconds).
    pub fn complete_failure(&mut self, d: &Destination, now: u64)
        requires
            old(self).wf(),
            old(self).lane(d@).sending,
        ensures
            final(self).wf(),
            final(self).lane(d@) == failed(old(self).lane(d@), now as nat),
            forall|e: (bool, Seq<u8>)| e != d@ ==> final(self).lane(e) == old(self).lane(e),
    {
        let i = self.slot(d);
        proof {
            lemma_lane_at(self.lanes@, i as int);
        }
        let ghost a = self.lanes@;
        self.lanes[i].fail(now);
        proof {
            lemma_update(a, self.lanes@, i as int);
        }
    }

    /// Takes back PDU `id` found reserved for `d` when the store is
    /// reopened. It is kept while no transaction to `d` is out, the id is
    /// valid and new to `d`, and the batch is under its cap; the rest is
    /// dropped.
    pub fn restore(&mut self, d: &Destination, id: Vec<u8>) -> (r: bool)
        requires
            old(self).wf(),
        ensures
            final(self).wf(),
            r == restorable(old(self).lane(d@), id@),
            r ==> final(self).lane(d@) == (LaneView {
                in_flight: old(self).lane(d@).in_flight.push(id@),
                marker: true,
                ..old(self).lane(d@)
            }),
            !r ==> final(self).lane(d@) == old(self).lane(d@),
            forall|e: (bool, Seq<u8>)| e != d@ ==> final(self).lane(e) == old(self).lane(e),
    {
        let i = self.slot(d);
        proof {
            lemma_lane_at(self.lanes@, i as int);
        }
        if self.lanes[i].sending {
            return false;
        }
        let ghost a = self.lanes@;
        let r = self.lanes[i].restore(id);
        proof {
            lemma_update(a, self.lanes@, i as int);
        }
        r
    }

    /// Starts one transaction for each destination that holds a reserved
    /// batch and has none out, carrying exactly that batch.
    pub fn resume(&mut self) -> (r: Vec<Dispatch>)
        requires
            old(self).wf(),
        ensures
            final(self).wf(),
            forall|d: (bool, Seq<u8>)| final(self).lane(d) == resumed(old(self).lane(d)),
            forall|k: int| 0 <= k < r@.len() ==> {
                &&& resumable(old(self).lane(#[trigger] r@[k].dest@))
                &&& ids_view(r@[k].pdus@) == old(self).lane(r@[k].dest@).in_flight
            },
            forall|d: (bool, Seq<u8>)| resumable(old(self).lane(d)) ==>
                exists|k: int| 0 <= k < r@.len() && #[trigger] r@[k].dest@ == d,
            forall|k1: int, k2: int| 0 <= k1 < r@.len() && 0 <= k2 < r@.len() && k1 != k2
                ==> #[trigger] r@[k1].dest@ != #[trigger] r@[k2].dest@,
    {
        let ghost a = self.lanes@;
        let mut out: Vec<Dispatch> = Vec::new();
        let mut i: usize = 0;
        while i < self.lanes.len()
            invariant
                0 <= i <= self.lanes@.len(),
                self.lanes@.len() == a.len(),
                distinct_lanes(a),
                forall|j: int| 0 <= j < a.len() ==> lane_wf(#[trigger] a[j].model()),
                forall|j: int| 0 <= j < a.len() ==> #[trigger] self.lanes@[j].dest@ == a[j].dest@,
                forall|j: int| 0 <= j < i ==> #[trigger] self.lanes@[j].model() == resumed(a[j].model()),
                forall|j: int| i <= j < a.len() ==> #[trigger] self.lanes@[j] == a[j],
                forall|k: int| 0 <= k < out@.len() ==> exists|j: int| {
                    &&& 0 <= j < i
                    &&& #[trigger] out@[k].dest@ == a[j].dest@
                    &&& resumable(a[j].model())
                    &&& ids_view(out@[k].pdus@) == a[j].model().in_flight
                },
                forall|j: int| 0 <= j < i && resumable(#[trigger] a[j].model()) ==>
                    exists|k: int| 0 <= k < out@.len() && #[trigger] out@[k].dest@ == a[j].dest@,
                forall|k1: int, k2: int| 0 <= k1 < out@.len() && 0 <= k2 < out@.len() && k1 != k2
                    ==> #[trigger] out@[k1].dest@ != #[trigger] out@[k2].dest@,
            decreases a.len() - i,
        {
            let ghost before = self.lanes@;
            let ghost before_out = out@;
            assert(self.lanes@[i as int] == a[i as int]);
            if !self.lanes[i].sending && self.lanes[i].in_flight.len() > 0 {
                let started_batch = self.lanes[i].start();
                assert(self.lanes@ =~= before.update(i as int, self.lanes@[i as int]));
                match started_batch {
                    Some(b) => {
                        let dest = self.lanes[i].dest.duplicate();
                        assert forall|k: int| 0 <= k < before_out.len()
                            implies before_out[k].dest@ != a[i as int].dest@ by {
                            let j = choose|j: int| {
                                &&& 0 <= j < i
                                &&& #[trigger] before_out[k].dest@ == a[j].dest@
                                &&& resumable(a[j].model())
                                &&& ids_view(before_out[k].pdus@) == a[j].model().in_flight
                            };
                            assert(a[j].dest@ != a[i as int].dest@);
                        }
                        out.push(Dispatch { dest, pdus: b });
                        assert(out@[before_out.len() as int].dest@ == a[i as int].dest@);
                    },
                    None => {},
                }
            }
            assert forall|k: int| 0 <= k < out@.len() implies exists|j: int| {
                &&& 0 <= j < i + 1
                &&& #[trigger] out@[k].dest@ == a[j].dest@
                &&& resumable(a[j].model())
                &&& ids_view(out@[k].pdus@) == a[j].model().in_flight
            } by {
                if k < before_out.len() {
                    assert(out@[k] == before_out[k]);
                    let j = choose|j: int| {
                        &&& 0 <= j < i
                        &&& #[trigger] before_out[k].dest@ == a[j].dest@
                        &&& resumable(a[j].model())
                        &&& ids_view(before_out[k].pdus@) == a[j].model().in_flight
                    };
                    assert(out@[k].dest@ == a[j].dest@);
                } else {
                    assert(out@[k].dest@ == a[i as int].dest@);
                }
            }
            assert forall|j: int| 0 <= j < i + 1 && resumable(#[trigger] a[j].model()) implies
                exists|k: int| 0 <= k < out@.len() && #[trigger] out@[k].dest@ == a[j].dest@ by {
                if j < i {
                    let k = choose|k: int| 0 <= k < before_out.len() && #[trigger] before_out[k].dest@ == a[j].dest@;
                    assert(out@[k] == before_out[k]);
                } else {
                    assert(out@[before_out.len() as int].dest@ == a[j].dest@);
                }
            }
            i += 1;
        }
        proof {
            assert(distinct_lanes(self.lanes@)) by {
                assert forall|j: int, k: int| 0 <= j < a.len() && 0 <= k < a.len() && j != k
                    implies #[trigger] self.lanes@[j].dest@ != #[trigger] self.lanes@[k].dest@ by {
                    assert(a[j].dest@ != a[k].dest@);
                }
            }
            assert forall|j: int| 0 <= j < a.len() implies lane_wf(#[trigger] self.lanes@[j].model()) by {
                assert(lane_wf(a[j].model()));
            }
            assert forall|d: (bool, Seq<u8>)| self.lane(d) == resumed(lane_in(a, d)) by {
                if has_lane(a, d) {
                    let j = choose|j: int| 0 <= j < a.len() && #[trigger] a[j].dest@ == d;
                    lemma_lane_at(a, j);
                    lemma_lane_at(self.lanes@, j);
                } else {
                    if has_lane(self.lanes@, d) {
                        let j = choose|j: int| 0 <= j < a.len() && #[trigger] self.lanes@[j].dest@ == d;
                        assert(a[j].dest@ == d);
                    }
                }
            }
            assert forall|k: int| 0 <= k < out@.len() implies {
                &&& resumable(lane_in(a, #[trigger] out@[k].dest@))
                &&& ids_view(out@[k].pdus@) == lane_in(a, out@[k].dest@).in_flight
            } by {
                let j = choose|j: int| {
                    &&& 0 <= j < a.len()
                    &&& #[trigger] out@[k].dest@ == a[j].dest@
                    &&& resumable(a[j].model())
                    &&& ids_view(out@[k].pdus@) == a[j].model().in_flight
                };
                lemma_lane_at(a, j);
            }
            assert forall|d: (bool, Seq<u8>)| resumable(lane_in(a, d)) implies
                exists|k: int| 0 <= k < out@.len() && #[trigger] out@[k].dest@ == d by {
                if has_lane(a, d) {
                    let j = choose|j: int| 0 <= j < a.len() && #[trigger] a[j].dest@ == d;
                    lemma_lane_at(a, j);
                    assert(resumable(a[j].model()));
                } else {
                    assert(!resumable(idle_lane()));
                }
            }
        }
        out
    }

    /// Handles the notification that key `(d, id)` was put in the pending
    /// table at `now`: the id is queued, a pending copy of an id already in
    /// flight is removed, and a transaction starts when the lane is free and
    /// out of its backoff window.
    pub fn notify(&mut self, d: &Destination, id: Vec<u8>, now: u64) -> (r: Transition)
        requires
            old(self).wf(),
        ensures
            final(self).wf(),
            ({
                let l = old(self).lane(d@);
                let n = noted(l, id@);
                let stale = if pdu_id_ok(id@) && l.in_flight.contains(id@) {
                    seq![(Table::Pending, false, key_of(d@, id@))]
                } else {
                    Seq::empty()
                };
                if may_start(n, now as nat) {
                    &&& final(self).lane(d@) == started(n)
                    &&& (r.send is Some <==> next_batch(n).len() > 0)
                    &&& r.send matches Some(b) ==> ids_view(b@) == next_batch(n)
                    &&& writes_view(r.writes@) == stale + start_writes(d@, n)
                } else {
                    &&& final(self).lane(d@) == n
                    &&& r.send is None
                    &&& writes_view(r.writes@) == stale
                }
            }),
            forall|e: (bool, Seq<u8>)| e != d@ ==> final(self).lane(e) == old(self).lane(e),
    {
        let ghost l = self.lane(d@);
        let ghost idv = id@;
        let mut writes: Vec<Write> = Vec::new();
        let i = self.slot(d);
        proof {
            lemma_lane_at(self.lanes@, i as int);
        }
        if crate::lane::valid_id(id.as_slice()) && self.lanes[i].holds_in_flight(id.as_slice()) {
            writes.push(Write { table: Table::Pending, insert: false, key: encode_key(d, id.as_slice()) });
        }
        let ghost stale = writes_view(writes@);
        self.enqueue(d, id);
        let ghost n = self.lane(d@);
        assert(n == noted(l, idv));
        let i = self.slot(d);
        proof {
            lemma_lane_at(self.lanes@, i as int);
        }
        let from_pending = self.lanes[i].in_flight.len() == 0;
        let send = self.on_enqueued(d, now);
        match send {
            Some(b) => {
                if from_pending {
                    let more = reserve_writes(d, &b);
                    append_writes(&mut writes, more);
                } else {
                    assert(start_writes(d@, n) =~= Seq::<(Table, bool, Seq<u8>)>::empty());
                }
                assert(writes_view(writes@) =~= stale + start_writes(d@, n));
                Transition { writes, send: Some(b) }
            },
            None => {
                proof {
                    if may_start(n, now as nat) {
                        assert(start_writes(d@, n) =~= Seq::<(Table, bool, Seq<u8>)>::empty());
                        assert(writes_view(writes@) =~= stale + start_writes(d@, n));
                    }
                }
                Transition { writes, send: None }
            },
        }
    }

    /// Reads back one key of the in-flight table when the store is
    /// reopened. The key is split at its first separator; a reserved PDU of
    /// a valid destination is taken back as `restore` takes it. A key that
    /// does not decode, a marker, a duplicate and an id over the batch cap
    /// are dropped: the one write returned removes them.
    pub fn recover_key(&mut self, key: &[u8]) -> (r: Vec<Write>)
        requires
            old(self).wf(),
        ensures
            final(self).wf(),
            r@.len() == 0 || writes_view(r@) == seq![(Table::InFlight, false, key@)],
            r@.len() > 0 ==> forall|e: (bool, Seq<u8>)| final(self).lane(e) == old(self).lane(e),
            (forall|j: int| 0 <= j < key@.len() ==> key@[j] != SEPARATOR) ==> r@.len() > 0,
            forall|i: int| #[trigger] first_separator(key@, i) ==> {
                let d = destination_of_head(key@.take(i));
                let id = key@.skip(i + 1);
                let l = old(self).lane(d);
                &&& !name_valid(d.1) ==> r@.len() > 0
                &&& name_valid(d.1) ==> (r@.len() == 0 <==> restorable(l, id))
                &&& r@.len() == 0 ==> final(self).lane(d) == (LaneView {
                    in_flight: l.in_flight.push(id),
                    marker: true,
                    ..l
                })
                &&& r@.len() == 0 ==> forall|e: (bool, Seq<u8>)| e != d ==> final(self).lane(e) == old(self).lane(e)
            },
    {
        let mut writes: Vec<Write> = Vec::new();
        let drop = Write { table: Table::InFlight, insert: false, key: crate::key::copy_bytes(key) };
        match decode_key(key) {
            Some((d, id)) => {
                if self.restore(&d, id) {
                    writes
                } else {
                    writes.push(drop);
                    assert(writes_view(writes@) =~= seq![(Table::InFlight, false, key@)]);
                    writes
                }
            },
            None => {
                writes.push(drop);
                assert(writes_view(writes@) =~= seq![(Table::InFlight, false, key@)]);
                writes
            },
        }
    }

    /// The lane of `d`, if it has one; a destination without a lane is idle.
    pub fn lane_state(&self, d: &Destination) -> (r: Option<&Lane>)
        requires
            self.wf(),
        ensures
            r matches Some(l) ==> l.dest@ == d@ && l.model() == self.lane(d@),
            r is None ==> self.lane(d@) == idle_lane(),
    {
        match self.find(d) {
            Some(i) => {
                proof {
                    lemma_lane_at(self.lanes@, i as int);
                }
                Some(&self.lanes[i])
            },
            None => None,
        }
    }
}

} // verus!