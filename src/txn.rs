//! Transaction ids: content-addressed from the ordered PDU ids.

use vstd::prelude::*;
use crate::key::{SEPARATOR, ids_view};

verus! {

/// SHA-256 of a byte string.
pub uninterp spec fn sha256_of(data: Seq<u8>) -> Seq<u8>;

/// The URL-safe base64 alphabet: letters, digits, `-` and `_`.
pub open spec fn base64url_alphabet() -> Seq<char> {
    seq![
        'A', 'B', 'C', 'D', 'E', 'F', 'G', 'H',
        'I', 'J', 'K', 'L', 'M', 'N', 'O', 'P',
        'Q', 'R', 'S', 'T', 'U', 'V', 'W', 'X',
        'Y', 'Z', 'a', 'b', 'c', 'd', 'e', 'f',
        'g', 'h', 'i', 'j', 'k', 'l', 'm', 'n',
        'o', 'p', 'q', 'r', 's', 't', 'u', 'v',
        'w', 'x', 'y', 'z', '0', '1', '2', '3',
        '4', '5', '6', '7', '8', '9', '-', '_',
    ]
}

/// URL-safe base64 without padding: each group of three bytes gives four
/// digits of six bits; a last group of one or two bytes gives two or three.
pub open spec fn base64url_of(d: Seq<u8>) -> Seq<char>
    decreases d.len(),
{
    let a = base64url_alphabet();
    if d.len() == 0 {
        Seq::empty()
    } else if d.len() == 1 {
        seq![a[d[0] as int / 4], a[(d[0] as int % 4) * 16]]
    } else if d.len() == 2 {
        seq![
            a[d[0] as int / 4],
            a[(d[0] as int % 4) * 16 + d[1] as int / 16],
            a[(d[1] as int % 16) * 4],
        ]
    } else {
        seq![
            a[d[0] as int / 4],
            a[(d[0] as int % 4) * 16 + d[1] as int / 16],
            a[(d[1] as int % 16) * 4 + d[2] as int / 64],
            a[d[2] as int % 64],
        ] + base64url_of(d.skip(3))
    }
}

/// Relies on `ring::digest::digest` with `SHA256`: a 32-byte digest that
/// depends on the input alone.
#[verifier::external_body]
fn sha256(data: &[u8]) -> (r: Vec<u8>)
    ensures
        r@ == sha256_of(data@),
        r@.len() == 32,
{
    ring::digest::digest(&ring::digest::SHA256, data).as_ref().to_vec()
}

/// Relies on `base64::encode_config` with `URL_SAFE_NO_PAD`: the standard
/// encoding over the URL-safe alphabet, without `=` padding.
#[verifier::external_body]
fn base64url(data: &[u8]) -> (r: String)
    ensures
        r@ == base64url_of(data@),
{
    base64::encode_config(data, base64::URL_SAFE_NO_PAD)
}

/// The ids joined by separator bytes.
pub open spec fn joined(ids: Seq<Seq<u8>>) -> Seq<u8>
    decreases ids.len(),
{
    if ids.len() == 0 {
        Seq::empty()
    } else if ids.len() == 1 {
        ids[0]
    } else {
        joined(ids.drop_last()) + seq![SEPARATOR] + ids.last()
    }
}

/// The transaction id of a batch.
pub open spec fn txn_id_spec(ids: Seq<Seq<u8>>) -> Seq<char> {
    base64url_of(sha256_of(joined(ids)))
}

/// The ids joined by separator bytes, the input of the digest.
pub fn join_ids(ids: &Vec<Vec<u8>>) -> (r: Vec<u8>)
    ensures
        r@ == joined(ids_view(ids@)),
{
    let ghost v = ids_view(ids@);
    let mut out: Vec<u8> = Vec::new();
    if ids.len() == 0 {
        return out;
    }
    crate::key::push_all(&mut out, ids[0].as_slice());
    assert(v.take(1).drop_last() =~= Seq::<Seq<u8>>::empty());
    assert(out@ == joined(v.take(1)));
    let mut i: usize = 1;
    while i < ids.len()
        invariant
            1 <= i <= ids@.len(),
            v == ids_view(ids@),
            out@ == joined(v.take(i as int)),
        decreases ids@.len() - i,
    {
        out.push(SEPARATOR);
        crate::key::push_all(&mut out, ids[i].as_slice());
        assert(v.take(i + 1).drop_last() =~= v.take(i as int));
        i += 1;
    }
    assert(v.take(ids@.len() as int) =~= v);
    out
}

/// The transaction id of a batch: base64url of the SHA-256 of the ids
/// joined by separator bytes.
pub fn transaction_id(ids: &Vec<Vec<u8>>) -> (r: String)
    ensures
        r@ == txn_id_spec(ids_view(ids@)),
{
    let bytes = join_ids(ids);
    let digest = sha256(bytes.as_slice());
    base64url(digest.as_slice())
}

/// Distinct non-empty batches of separator-free ids join to distinct
/// bytes, so the digest input names the batch.
pub proof fn lemma_join_injective(a: Seq<Seq<u8>>, b: Seq<Seq<u8>>)
    requires
        a.len() > 0,
        b.len() > 0,
        forall|i: int| 0 <= i < a.len() ==> !(#[trigger] a[i]).contains(SEPARATOR),
        forall|i: int| 0 <= i < b.len() ==> !(#[trigger] b[i]).contains(SEPARATOR),
        joined(a) == joined(b),
    ensures
        a == b,
    decreases a.len() + b.len(),
{
    if a.len() == 1 && b.len() == 1 {
        assert(a =~= b);
    } else if a.len() == 1 {
        let x = joined(b);
        let p = joined(b.drop_last()).len() as int;
        assert(x[p] == SEPARATOR);
        assert(joined(a) == a[0]);
        assert(a[0].contains(SEPARATOR));
    } else if b.len() == 1 {
        let x = joined(a);
        let p = joined(a.drop_last()).len() as int;
        assert(x[p] == SEPARATOR);
        assert(joined(b) == b[0]);
        assert(b[0].contains(SEPARATOR));
    } else {
        let x = joined(a);
        let la = a.last();
        let lb = b.last();
        let pa = joined(a.drop_last()).len() as int;
        let pb = joined(b.drop_last()).len() as int;
        assert(x.len() == pa + 1 + la.len());
        assert(x.len() == pb + 1 + lb.len());
        assert(x[pa] == SEPARATOR);
        assert(joined(b)[pb] == SEPARATOR);
        if la.len() < lb.len() {
            assert(lb[pa - pb - 1] == x[pa]);
            assert(lb.contains(SEPARATOR));
            assert(!b[b.len() - 1].contains(SEPARATOR));
        } else if lb.len() < la.len() {
            assert(la[pb - pa - 1] == x[pb]);
            assert(la.contains(SEPARATOR));
            assert(!a[a.len() - 1].contains(SEPARATOR));
        } else {
            assert(la =~= x.skip(pa + 1));
            assert(lb =~= x.skip(pb + 1));
            assert(joined(a.drop_last()) =~= x.take(pa));
            assert(joined(b.drop_last()) =~= x.take(pb));
            assert forall|i: int| 0 <= i < a.drop_last().len() implies
                !(#[trigger] a.drop_last()[i]).contains(SEPARATOR) by {
                assert(a.drop_last()[i] == a[i]);
            }
            assert forall|i: int| 0 <= i < b.drop_last().len() implies
                !(#[trigger] b.drop_last()[i]).contains(SEPARATOR) by {
                assert(b.drop_last()[i] == b[i]);
            }
            lemma_join_injective(a.drop_last(), b.drop_last());
            assert(a =~= a.drop_last().push(la));
            assert(b =~= b.drop_last().push(lb));
        }
    }
}

/// The same ordered ids always give the same transaction id.
pub proof fn lemma_txn_id_deterministic(a: Seq<Seq<u8>>, b: Seq<Seq<u8>>)
    requires
        a == b,
    ensures
        txn_id_spec(a) == txn_id_spec(b),
{
}

/// The events that resolved, in order.
pub open spec fn resolved_spec<T>(found: Seq<Option<T>>) -> Seq<T>
    decreases found.len(),
{
    if found.len() == 0 {
        Seq::empty()
    } else {
        let rest = resolved_spec(found.drop_last());
        match found.last() {
            Some(e) => rest.push(e),
            None => rest,
        }
    }
}

/// The payload of a transaction from the store's answers for its PDU ids,
/// in order: an id that did not resolve is skipped and the rest is sent.
pub fn resolved<T>(found: Vec<Option<T>>) -> (r: Vec<T>)
    ensures
        r@ == resolved_spec(found@),
{
    let ghost all = found@;
    let n = found.len();
    let mut rest = found;
    let mut out: Vec<T> = Vec::new();
    let mut i: usize = 0;
    while rest.len() > 0
        invariant
            i + rest@.len() == all.len(),
            all.len() == n,
            rest@ == all.skip(i as int),
            out@ == resolved_spec(all.take(i as int)),
        decreases rest@.len(),
    {
        let x = rest.remove(0);
        assert(all.take(i + 1).drop_last() =~= all.take(i as int));
        assert(x == all[i as int]);
        match x {
            Some(e) => out.push(e),
            None => {},
        }
        assert(rest@ =~= all.skip(i + 1));
        i += 1;
    }
    assert(all.take(all.len() as int) =~= all);
    out
}

} // verus!
