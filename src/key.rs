//! Composite keys of the queue tables: `destination || 0xFF || pdu_id`,
//! where an appservice destination carries a leading `+`.

use vstd::prelude::*;
use vstd::utf8::{valid_utf8, decode_utf8};

verus! {

/// Byte that ends the destination part of a key.
pub const SEPARATOR: u8 = 0xff;

/// Leading byte (`+`) of an appservice destination in a key.
pub const APPSERVICE_SIGIL: u8 = 0x2b;

/// Whether `s` is a server name as the federation identifiers accept it.
pub uninterp spec fn server_name_ok(s: Seq<char>) -> bool;

/// Relies on `ruma::ServerName::parse`: it succeeds exactly when the
/// identifier validation accepts the string, which refuses an empty one.
#[verifier::external_body]
fn parses_as_server_name(s: &str) -> (r: bool)
    ensures
        r == server_name_ok(s@),
        s@.len() == 0 ==> !r,
{
    ruma::ServerName::parse(s).is_ok()
}

/// Relies on `std::str::from_utf8`: `Ok` exactly on valid UTF-8, holding
/// the decoded characters.
#[verifier::external_body]
fn utf8_str(b: &[u8]) -> (r: Option<&str>)
    ensures
        r is Some <==> valid_utf8(b@),
        r matches Some(s) ==> s@ == decode_utf8(b@),
{
    std::str::from_utf8(b).ok()
}

/// A destination name is UTF-8 text that reads as a server name.
pub open spec fn name_valid(name: Seq<u8>) -> bool {
    valid_utf8(name) && server_name_ok(decode_utf8(name))
}

/// The target of a transaction: a remote server or a local appservice.
pub struct Destination {
    /// UTF-8 bytes of the server name or the appservice id.
    pub name: Vec<u8>,
    pub appservice: bool,
}

impl View for Destination {
    type V = (bool, Seq<u8>);

    open spec fn view(&self) -> (bool, Seq<u8>) {
        (self.appservice, self.name@)
    }
}

/// The bytes that open every key of destination `d`.
pub open spec fn prefix_of(d: (bool, Seq<u8>)) -> Seq<u8> {
    (if d.0 { seq![APPSERVICE_SIGIL] } else { Seq::<u8>::empty() }) + d.1 + seq![SEPARATOR]
}

/// The key of `pdu` queued for destination `d`; an empty `pdu` gives the
/// reservation marker.
pub open spec fn key_of(d: (bool, Seq<u8>), pdu: Seq<u8>) -> Seq<u8> {
    prefix_of(d) + pdu
}

/// A PDU id that can stand in a key: not empty (that is the marker) and
/// free of the separator.
pub open spec fn pdu_id_ok(pdu: Seq<u8>) -> bool {
    pdu.len() > 0 && !pdu.contains(SEPARATOR)
}

/// The byte strings held by a sequence of vectors.
pub open spec fn ids_view(v: Seq<Vec<u8>>) -> Seq<Seq<u8>> {
    v.map_values(|x: Vec<u8>| x@)
}

/// `i` is the position of the first separator in `k`.
pub open spec fn first_separator(k: Seq<u8>, i: int) -> bool {
    0 <= i < k.len() && k[i] == SEPARATOR && forall|j: int| 0 <= j < i ==> k[j] != SEPARATOR
}

/// The destination that the part of a key before its separator names.
pub open spec fn destination_of_head(head: Seq<u8>) -> (bool, Seq<u8>) {
    if head.len() > 0 && head[0] == APPSERVICE_SIGIL {
        (true, head.skip(1))
    } else {
        (false, head)
    }
}

/// Byte-wise equality of two slices.
pub fn bytes_equal(a: &[u8], b: &[u8]) -> (r: bool)
    ensures
        r == (a@ == b@),
{
    if a.len() != b.len() {
        return false;
    }
    let mut i: usize = 0;
    while i < a.len()
        invariant
            a@.len() == b@.len(),
            0 <= i <= a@.len(),
            forall|j: int| 0 <= j < i ==> a@[j] == b@[j],
        decreases a@.len() - i,
    {
        if a[i] != b[i] {
            return false;
        }
        i += 1;
    }
    assert(a@ =~= b@);
    true
}

/// A copy of the bytes of `b` from `lo` up to `hi`.
pub fn copy_range(b: &[u8], lo: usize, hi: usize) -> (r: Vec<u8>)
    requires
        lo <= hi <= b@.len(),
    ensures
        r@ == b@.subrange(lo as int, hi as int),
{
    let mut out: Vec<u8> = Vec::new();
    let mut i: usize = lo;
    while i < hi
        invariant
            lo <= i <= hi <= b@.len(),
            out@ == b@.subrange(lo as int, i as int),
        decreases hi - i,
    {
        out.push(b[i]);
        i += 1;
        assert(out@ =~= b@.subrange(lo as int, i as int));
    }
    out
}

/// A copy of `b`.
pub fn copy_bytes(b: &[u8]) -> (r: Vec<u8>)
    ensures
        r@ == b@,
{
    let r = copy_range(b, 0, b.len());
    assert(b@.subrange(0, b@.len() as int) =~= b@);
    r
}

/// Appends `b` to `out`.
pub fn push_all(out: &mut Vec<u8>, b: &[u8])
    ensures
        final(out)@ == old(out)@ + b@,
{
    let ghost start = out@;
    let mut i: usize = 0;
    while i < b.len()
        invariant
            0 <= i <= b@.len(),
            out@ == start + b@.take(i as int),
        decreases b@.len() - i,
    {
        out.push(b[i]);
        i += 1;
        assert(out@ =~= start + b@.take(i as int));
    }
    assert(b@.take(b@.len() as int) =~= b@);
}

/// A copy of each byte string of `v`.
pub fn copy_ids(v: &Vec<Vec<u8>>) -> (r: Vec<Vec<u8>>)
    ensures
        ids_view(r@) == ids_view(v@),
{
    let mut out: Vec<Vec<u8>> = Vec::new();
    let mut i: usize = 0;
    while i < v.len()
        invariant
            0 <= i <= v@.len(),
            out@.len() == i,
            ids_view(out@) == ids_view(v@).take(i as int),
        decreases v@.len() - i,
    {
        let c = copy_bytes(v[i].as_slice());
        let ghost prev = out@;
        out.push(c);
        assert forall|k: int| 0 <= k < i implies #[trigger] ids_view(out@)[k] == ids_view(v@)[k] by {
            assert(out@[k] == prev[k]);
            assert(ids_view(prev)[k] == ids_view(v@).take(i as int)[k]);
        }
        i += 1;
        assert(ids_view(out@) =~= ids_view(v@).take(i as int));
    }
    assert(ids_view(v@).take(v@.len() as int) =~= ids_view(v@));
    out
}

impl Destination {
    /// A remote homeserver.
    pub fn server(name: Vec<u8>) -> (r: Destination)
        ensures
            r@ == (false, name@),
    {
        Destination { name, appservice: false }
    }

    /// A local appservice bridge.
    pub fn appservice(id: Vec<u8>) -> (r: Destination)
        ensures
            r@ == (true, id@),
    {
        Destination { name: id, appservice: true }
    }

    /// Whether two destinations are the same, tag included.
    pub fn same(&self, other: &Destination) -> (r: bool)
        ensures
            r == (self@ == other@),
    {
        self.appservice == other.appservice && bytes_equal(self.name.as_slice(), other.name.as_slice())
    }

    /// A copy of this destination.
    pub fn duplicate(&self) -> (r: Destination)
        ensures
            r@ == self@,
    {
        Destination { name: copy_bytes(self.name.as_slice()), appservice: self.appservice }
    }

    /// The key prefix of this destination; it ends with the separator.
    pub fn encode_prefix(&self) -> (r: Vec<u8>)
        ensures
            r@ == prefix_of(self@),
    {
        let mut out: Vec<u8> = Vec::new();
        if self.appservice {
            out.push(APPSERVICE_SIGIL);
        }
        push_all(&mut out, self.name.as_slice());
        out.push(SEPARATOR);
        assert(out@ =~= prefix_of(self@));
        out
    }
}

/// The key of `pdu` queued for `d`.
pub fn encode_key(d: &Destination, pdu: &[u8]) -> (r: Vec<u8>)
    ensures
        r@ == key_of(d@, pdu@),
{
    let mut out = d.encode_prefix();
    push_all(&mut out, pdu);
    out
}

/// Splits a key into its destination and PDU id. Refused when the key
/// holds no separator or its destination part is not a valid name; an
/// empty PDU id is the reservation marker.
pub fn decode_key(k: &[u8]) -> (r: Option<(Destination, Vec<u8>)>)
    ensures
        (forall|j: int| 0 <= j < k@.len() ==> k@[j] != SEPARATOR) ==> r is None,
        r matches Some(p) ==> key_of(p.0@, p.1@) == k@,
        forall|i: int| #[trigger] first_separator(k@, i) ==> {
            &&& (r is Some <==> name_valid(destination_of_head(k@.take(i)).1))
            &&& r matches Some(p) ==> p.0@ == destination_of_head(k@.take(i)) && p.1@ == k@.skip(i + 1)
        },
{
    let mut i: usize = 0;
    while i < k.len() && k[i] != SEPARATOR
        invariant
            0 <= i <= k@.len(),
            forall|j: int| 0 <= j < i ==> k@[j] != SEPARATOR,
        decreases k@.len() - i,
    {
        i += 1;
    }
    if i == k.len() {
        return None;
    }
    assert(first_separator(k@, i as int));
    assert forall|m: int| #[trigger] first_separator(k@, m) implies m == i by {
        if m < i {
            assert(k@[m] != SEPARATOR);
        } else if m > i {
            assert(k@[i as int] != SEPARATOR);
        }
    }
    let appservice = i > 0 && k[0] == APPSERVICE_SIGIL;
    let start: usize = if appservice { 1 } else { 0 };
    let name_bytes = copy_range(k, start, i);
    assert(name_bytes@ =~= destination_of_head(k@.take(i as int)).1);
    let valid = match utf8_str(name_bytes.as_slice()) {
        Some(s) => parses_as_server_name(s),
        None => false,
    };
    if !valid {
        return None;
    }
    let pdu = copy_range(k, i + 1, k.len());
    assert(pdu@ =~= k@.skip(i + 1));
    assert(key_of((appservice, name_bytes@), pdu@) =~= k@);
    Some((Destination { name: name_bytes, appservice }, pdu))
}

} // verus!
