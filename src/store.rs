//! Writes to the two durable tables that mirror the sender's decisions.

use vstd::prelude::*;
use crate::key::{Destination, encode_key, ids_view, key_of, prefix_of};

verus! {

/// The two tables of the queue.
#[derive(Clone, Copy, PartialEq, Eq, Structural, Debug)]
pub enum Table {
    /// Enqueued, not yet reserved.
    Pending,
    /// Reserved for, or sent in, the current transaction; with the markers.
    InFlight,
}

/// One write: a key put into or removed from a table (values are empty).
pub struct Write {
    pub table: Table,
    pub insert: bool,
    pub key: Vec<u8>,
}

impl View for Write {
    type V = (Table, bool, Seq<u8>);

    open spec fn view(&self) -> (Table, bool, Seq<u8>) {
        (self.table, self.insert, self.key@)
    }
}

/// The views of a sequence of writes.
pub open spec fn writes_view(w: Seq<Write>) -> Seq<(Table, bool, Seq<u8>)> {
    w.map_values(|x: Write| x@)
}

/// Moving `batch` of `d` from pending to in flight: for each id, first the
/// in-flight key is written, then the pending key removed.
pub open spec fn moves(d: (bool, Seq<u8>), batch: Seq<Seq<u8>>) -> Seq<(Table, bool, Seq<u8>)>
    decreases batch.len(),
{
    if batch.len() == 0 {
        Seq::empty()
    } else {
        moves(d, batch.drop_last()) + seq![
            (Table::InFlight, true, key_of(d, batch.last())),
            (Table::Pending, false, key_of(d, batch.last())),
        ]
    }
}

/// Reserving `batch` for `d`: the marker, then the moves.
pub open spec fn reserve_spec(d: (bool, Seq<u8>), batch: Seq<Seq<u8>>) -> Seq<(Table, bool, Seq<u8>)> {
    seq![(Table::InFlight, true, prefix_of(d))] + moves(d, batch)
}

/// Removing the in-flight keys of `batch` of `d`, the marker left alone.
pub open spec fn removals(d: (bool, Seq<u8>), batch: Seq<Seq<u8>>) -> Seq<(Table, bool, Seq<u8>)>
    decreases batch.len(),
{
    if batch.len() == 0 {
        Seq::empty()
    } else {
        removals(d, batch.drop_last()) + seq![(Table::InFlight, false, key_of(d, batch.last()))]
    }
}

/// The writes that reserve `batch` for `d`.
pub fn reserve_writes(d: &Destination, batch: &Vec<Vec<u8>>) -> (r: Vec<Write>)
    ensures
        writes_view(r@) == reserve_spec(d@, ids_view(batch@)),
{
    let ghost b = ids_view(batch@);
    let mut out: Vec<Write> = Vec::new();
    out.push(Write { table: Table::InFlight, insert: true, key: d.encode_prefix() });
    assert(writes_view(out@) =~= reserve_spec(d@, b.take(0)));
    let mut i: usize = 0;
    while i < batch.len()
        invariant
            0 <= i <= batch@.len(),
            b == ids_view(batch@),
            writes_view(out@) == reserve_spec(d@, b.take(i as int)),
        decreases batch@.len() - i,
    {
        let ghost prev = out@;
        out.push(Write { table: Table::InFlight, insert: true, key: encode_key(d, batch[i].as_slice()) });
        out.push(Write { table: Table::Pending, insert: false, key: encode_key(d, batch[i].as_slice()) });
        assert(b.take(i + 1).drop_last() =~= b.take(i as int));
        assert(writes_view(out@) =~= writes_view(prev) + seq![
            (Table::InFlight, true, key_of(d@, b[i as int])),
            (Table::Pending, false, key_of(d@, b[i as int])),
        ]);
        i += 1;
        assert(writes_view(out@) =~= reserve_spec(d@, b.take(i as int)));
    }
    assert(b.take(batch@.len() as int) =~= b);
    out
}

/// The writes that remove the in-flight keys of `batch` for `d`.
pub fn removal_writes(d: &Destination, batch: &Vec<Vec<u8>>) -> (r: Vec<Write>)
    ensures
        writes_view(r@) == removals(d@, ids_view(batch@)),
{
    let ghost b = ids_view(batch@);
    let mut out: Vec<Write> = Vec::new();
    assert(writes_view(out@) =~= removals(d@, b.take(0)));
    let mut i: usize = 0;
    while i < batch.len()
        invariant
            0 <= i <= batch@.len(),
            b == ids_view(batch@),
            writes_view(out@) == removals(d@, b.take(i as int)),
        decreases batch@.len() - i,
    {
        let ghost prev = out@;
        out.push(Write { table: Table::InFlight, insert: false, key: encode_key(d, batch[i].as_slice()) });
        assert(b.take(i + 1).drop_last() =~= b.take(i as int));
        assert(writes_view(out@) =~= writes_view(prev) + seq![
            (Table::InFlight, false, key_of(d@, b[i as int])),
        ]);
        i += 1;
    }
    assert(b.take(batch@.len() as int) =~= b);
    out
}

/// The write that installs the reservation marker of `d`.
pub fn marker_write(d: &Destination) -> (r: Write)
    ensures
        r@ == (Table::InFlight, true, prefix_of(d@)),
{
    Write { table: Table::InFlight, insert: true, key: d.encode_prefix() }
}

/// The write that releases the reservation marker of `d`.
pub fn release_write(d: &Destination) -> (r: Write)
    ensures
        r@ == (Table::InFlight, false, prefix_of(d@)),
{
    Write { table: Table::InFlight, insert: false, key: d.encode_prefix() }
}

} // verus!
