//! The canonical Bencode encoding of a value model, and the law that
//! decoding an encoded value gives the value back.
use vstd::prelude::*;
use crate::grammar::{
    advances, canonical_digits, canonical_int, digits_value, fits_i64, has_key,
    int_value, is_digit, parse_document, parse_entries, parse_items, parse_value,
};
use crate::laws::{lemma_bytes_at, lemma_integer_at, lemma_occurs_index, lemma_occurs_split, occurs_at};
use crate::value::{BencodeError, SValue};

verus! {

/// The canonical decimal digits of `n`.
pub open spec fn decimal(n: nat) -> Seq<u8>
    decreases n,
{
    if n < 10 {
        seq![(48 + n) as u8]
    } else {
        decimal(n / 10).push((48 + n % 10) as u8)
    }
}

/// The canonical signed decimal of `k`.
pub open spec fn signed_decimal(k: int) -> Seq<u8> {
    if k < 0 {
        seq![45u8] + decimal((-k) as nat)
    } else {
        decimal(k as nat)
    }
}

/// The encoding of a byte string: its length, a colon, its bytes.
pub open spec fn encode_bytes(b: Seq<u8>) -> Seq<u8> {
    decimal(b.len()) + seq![58u8] + b
}

/// The Bencode encoding of a value.
pub open spec fn encode(v: SValue) -> Seq<u8>
    decreases v,
{
    match v {
        SValue::Bytes(b) => encode_bytes(b),
        SValue::Int(k) => seq![105u8] + signed_decimal(k) + seq![101u8],
        SValue::List(items) => seq![108u8] + encode_list(items) + seq![101u8],
        SValue::Dict(entries) => seq![100u8] + encode_entries(entries) + seq![101u8],
    }
}

/// The encodings of list elements, one after another.
pub open spec fn encode_list(items: Seq<SValue>) -> Seq<u8>
    decreases items,
{
    if items.len() == 0 {
        Seq::empty()
    } else {
        encode(items[0]) + encode_list(items.drop_first())
    }
}

/// The encodings of dictionary entries, key then value, one after another.
pub open spec fn encode_entries(entries: Seq<(Seq<u8>, SValue)>) -> Seq<u8>
    decreases entries,
{
    if entries.len() == 0 {
        Seq::empty()
    } else {
        encode_bytes(entries[0].0) + encode(entries[0].1) + encode_entries(entries.drop_first())
    }
}

/// No key stands twice among `entries`.
pub open spec fn distinct_keys(entries: Seq<(Seq<u8>, SValue)>) -> bool {
    forall|i: int, j: int| 0 <= i < j < entries.len() ==> entries[i].0 != entries[j].0
}

/// Whether a value can come out of a decode that allows `depth` levels of
/// nesting: its integers fit in `i64`, its dictionaries have distinct keys,
/// and its lists and dictionaries nest at most `depth` deep.
pub open spec fn decodable(v: SValue, depth: nat) -> bool
    decreases v,
{
    match v {
        SValue::Bytes(_) => true,
        SValue::Int(k) => fits_i64(k),
        SValue::List(items) => depth > 0 && forall|i: int|
            0 <= i < items.len() ==> decodable(#[trigger] items[i], (depth - 1) as nat),
        SValue::Dict(entries) => depth > 0 && distinct_keys(entries) && forall|i: int|
            0 <= i < entries.len() ==> decodable(#[trigger] entries[i].1, (depth - 1) as nat),
    }
}

} // verus!

verus! {

/// `decimal(n)` is canonical and denotes `n`.
pub proof fn lemma_decimal(n: nat)
    ensures
        canonical_digits(decimal(n)),
        digits_value(decimal(n)) == n,
        n != 0 ==> decimal(n)[0] != 48,
    decreases n,
{
    let d = decimal(n);
    if n < 10 {
        assert(d.drop_last() =~= Seq::<u8>::empty());
        assert(d.last() as int == 48 + n);
        assert(digits_value(d.drop_last()) == 0);
        assert(is_digit(d[0]));
    } else {
        let h = decimal(n / 10);
        lemma_decimal(n / 10);
        assert(d.drop_last() =~= h);
        assert(d.last() as int == 48 + n % 10);
        assert(n == (n / 10) * 10 + n % 10);
        assert(digits_value(d.drop_last()) == n / 10);
        assert(d[0] == h[0]);
        assert forall|i: int| 0 <= i < d.len() implies is_digit(#[trigger] d[i]) by {
            if i < h.len() {
                assert(d[i] == h[i]);
            }
        }
    }
}

/// `signed_decimal(k)` is a canonical signed decimal with no `e`, and
/// denotes `k`.
pub proof fn lemma_signed_decimal(k: int)
    ensures
        canonical_int(signed_decimal(k)),
        int_value(signed_decimal(k)) == k,
        forall|j: int| 0 <= j < signed_decimal(k).len() ==> signed_decimal(k)[j] != 101,
{
    let t = signed_decimal(k);
    if k < 0 {
        let d = decimal((-k) as nat);
        lemma_decimal((-k) as nat);
        assert(t.drop_first() =~= d);
        assert(t[1] == d[0]);
        assert forall|j: int| 0 <= j < t.len() implies t[j] != 101 by {
            if j > 0 {
                assert(t[j] == d[j - 1]);
                assert(is_digit(d[j - 1]));
            }
        }
    } else {
        lemma_decimal(k as nat);
        assert(is_digit(t[0]));
        assert forall|j: int| 0 <= j < t.len() implies t[j] != 101 by {
            assert(is_digit(t[j]));
        }
    }
}

/// An encoding is never empty and never starts with `e`.
pub proof fn lemma_encode_first(v: SValue)
    ensures
        encode(v).len() > 0,
        encode(v)[0] != 101,
{
    match v {
        SValue::Bytes(b) => {
            lemma_decimal(b.len());
            assert(encode(v)[0] == decimal(b.len())[0]);
            assert(is_digit(decimal(b.len())[0]));
        },
        _ => {},
    }
}

/// Decoding at `p` an encoded value that stands there gives the value back
/// and the offset after its encoding.
pub proof fn lemma_value_at(s: Seq<u8>, p: int, v: SValue, depth: nat)
    requires
        decodable(v, depth),
        occurs_at(s, p, encode(v)),
    ensures
        parse_value(s, p, depth) == Ok::<(SValue, int), BencodeError>((v, p + encode(v).len())),
    decreases v,
{
    lemma_encode_first(v);
    lemma_occurs_index(s, p, encode(v));
    assert(s[p] == encode(v)[0]);
    match v {
        SValue::Bytes(b) => {
            lemma_decimal(b.len());
            lemma_bytes_at(s, p, decimal(b.len()), b);
        },
        SValue::Int(k) => {
            lemma_signed_decimal(k);
            lemma_integer_at(s, p, signed_decimal(k), depth);
        },
        SValue::List(items) => {
            let body = encode_list(items) + seq![101u8];
            assert(encode(v) =~= seq![108u8] + body);
            lemma_occurs_split(s, p, seq![108u8], body);
            assert forall|i: int| 0 <= i < items.len() implies decodable(
                #[trigger] items[i],
                (depth - 1) as nat,
            ) by {}
            lemma_items_at(s, p + 1, items, (depth - 1) as nat, Seq::empty());
            assert(Seq::<SValue>::empty() + items =~= items);
        },
        SValue::Dict(entries) => {
            let body = encode_entries(entries) + seq![101u8];
            assert(encode(v) =~= seq![100u8] + body);
            lemma_occurs_split(s, p, seq![100u8], body);
            lemma_entries_at(s, p + 1, entries, (depth - 1) as nat, Seq::empty());
            assert(Seq::<(Seq<u8>, SValue)>::empty() + entries =~= entries);
        },
    }
}

/// Decoding list elements from `p` on, where their encodings and an `e`
/// stand, appends the elements to `acc`.
pub proof fn lemma_items_at(s: Seq<u8>, p: int, items: Seq<SValue>, depth: nat, acc: Seq<SValue>)
    requires
        forall|i: int| 0 <= i < items.len() ==> decodable(#[trigger] items[i], depth),
        occurs_at(s, p, encode_list(items) + seq![101u8]),
    ensures
        parse_items(s, p, depth, acc) == Ok::<(SValue, int), BencodeError>(
            (SValue::List(acc + items), p + encode_list(items).len() + 1),
        ),
    decreases items,
{
    let body = encode_list(items) + seq![101u8];
    lemma_occurs_index(s, p, body);
    if items.len() == 0 {
        assert(s[p] == body[0]);
        assert(acc + items =~= acc);
    } else {
        let head = encode(items[0]);
        let tail = encode_list(items.drop_first()) + seq![101u8];
        assert(body =~= head + tail);
        lemma_occurs_split(s, p, head, tail);
        lemma_encode_first(items[0]);
        assert(s[p] == body[0]);
        lemma_value_at(s, p, items[0], depth);
        let q = p + head.len();
        assert(advances(s, p, q));
        assert forall|i: int| 0 <= i < items.drop_first().len() implies decodable(
            #[trigger] items.drop_first()[i],
            depth,
        ) by {
            assert(items.drop_first()[i] == items[i + 1]);
        }
        lemma_items_at(s, q, items.drop_first(), depth, acc.push(items[0]));
        assert(acc.push(items[0]) + items.drop_first() =~= acc + items);
    }
}

/// Decoding dictionary entries from `p` on, where their encodings and an
/// `e` stand, appends the entries to `acc`, when no key repeats.
pub proof fn lemma_entries_at(
    s: Seq<u8>,
    p: int,
    entries: Seq<(Seq<u8>, SValue)>,
    depth: nat,
    acc: Seq<(Seq<u8>, SValue)>,
)
    requires
        distinct_keys(entries),
        forall|i: int| 0 <= i < entries.len() ==> !has_key(acc, #[trigger] entries[i].0),
        forall|i: int| 0 <= i < entries.len() ==> decodable(#[trigger] entries[i].1, depth),
        occurs_at(s, p, encode_entries(entries) + seq![101u8]),
    ensures
        parse_entries(s, p, depth, acc) == Ok::<(SValue, int), BencodeError>(
            (SValue::Dict(acc + entries), p + encode_entries(entries).len() + 1),
        ),
    decreases entries,
{
    let body = encode_entries(entries) + seq![101u8];
    lemma_occurs_index(s, p, body);
    if entries.len() == 0 {
        assert(s[p] == body[0]);
        assert(acc + entries =~= acc);
    } else {
        let key = entries[0].0;
        let val = entries[0].1;
        let kenc = encode_bytes(key);
        let venc = encode(val);
        let rest = entries.drop_first();
        let tail = encode_entries(rest) + seq![101u8];
        assert(body =~= kenc + (venc + tail));
        lemma_occurs_split(s, p, kenc, venc + tail);
        lemma_occurs_split(s, p + kenc.len(), venc, tail);
        lemma_decimal(key.len());
        lemma_bytes_at(s, p, decimal(key.len()), key);
        assert(s[p] != 101);
        let k = p + kenc.len();
        assert(!has_key(acc, key));
        assert(advances(s, p, k));
        lemma_value_at(s, k, val, depth);
        lemma_encode_first(val);
        let q = k + venc.len();
        assert(advances(s, k, q));
        let acc2 = acc.push((key, val));
        assert forall|i: int| 0 <= i < rest.len() implies !has_key(acc2, #[trigger] rest[i].0) by {
            assert(rest[i] == entries[i + 1]);
            assert(entries[0].0 != entries[i + 1].0);
            if has_key(acc2, rest[i].0) {
                let j = choose|j: int| 0 <= j < acc2.len() && (#[trigger] acc2[j]).0 == rest[i].0;
                if j < acc.len() {
                    assert(acc2[j] == acc[j]);
                    assert(has_key(acc, entries[i + 1].0));
                }
            }
        }
        assert forall|i: int| 0 <= i < rest.len() implies decodable(#[trigger] rest[i].1, depth) by {
            assert(rest[i] == entries[i + 1]);
        }
        assert forall|i: int, j: int| 0 <= i < j < rest.len() implies rest[i].0 != rest[j].0 by {
            assert(rest[i] == entries[i + 1]);
            assert(rest[j] == entries[j + 1]);
        }
        lemma_entries_at(s, q, rest, depth, acc2);
        assert(acc2 + rest =~= acc + entries);
        assert(kenc.len() + venc.len() + tail.len() == body.len());
    }
}

/// Decoding undoes encoding: every value that a decode allowing `depth`
/// levels of nesting can give is decoded from its own encoding, with the
/// whole encoding consumed. Hence encoding what was decoded from an
/// encoding gives that encoding back.
pub proof fn lemma_round_trip(v: SValue, depth: nat)
    requires
        decodable(v, depth),
    ensures
        parse_document(encode(v), depth) == Ok::<SValue, BencodeError>(v),
        parse_value(encode(v), 0, depth) == Ok::<(SValue, int), BencodeError>(
            (v, encode(v).len() as int),
        ),
        match parse_document(encode(v), depth) {
            Ok(w) => encode(w) == encode(v),
            Err(_) => false,
        },
{
    let s = encode(v);
    assert(s.subrange(0, s.len() as int) =~= s);
    lemma_value_at(s, 0, v, depth);
}

} // verus!
