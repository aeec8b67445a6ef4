//! General properties of the grammar, proved for all inputs.
use vstd::prelude::*;
use crate::grammar::{
    all_digits, canonical_int, digits_value, find_from, fits_i64, int_value, is_digit,
    parse_bytes, parse_document, parse_value,
};
use crate::value::{BencodeError, SValue};

verus! {

/// `find_from` stops at the first `c` at or after `i`.
proof fn lemma_find_from_first(s: Seq<u8>, i: int, k: int, c: u8)
    requires
        0 <= i <= k < s.len(),
        s[k] == c,
        forall|j: int| i <= j < k ==> s[j] != c,
    ensures
        find_from(s, i, c) == Some(k),
    decreases k - i,
{
    if i < k {
        lemma_find_from_first(s, i + 1, k, c);
    }
}

/// Whether `x` stands in `s` at offset `p`.
pub open spec fn occurs_at(s: Seq<u8>, p: int, x: Seq<u8>) -> bool {
    0 <= p && p + x.len() <= s.len() && s.subrange(p, p + x.len()) == x
}

/// The bytes of `x` where it stands in `s`.
pub proof fn lemma_occurs_index(s: Seq<u8>, p: int, x: Seq<u8>)
    requires
        occurs_at(s, p, x),
    ensures
        forall|j: int| 0 <= j < x.len() ==> s[p + j] == #[trigger] x[j],
{
    assert forall|j: int| 0 <= j < x.len() implies s[p + j] == #[trigger] x[j] by {
        assert(s.subrange(p, p + x.len())[j] == s[p + j]);
    }
}

/// Where `x + y` stands, `x` stands and `y` follows it.
pub proof fn lemma_occurs_split(s: Seq<u8>, p: int, x: Seq<u8>, y: Seq<u8>)
    requires
        occurs_at(s, p, x + y),
    ensures
        occurs_at(s, p, x),
        occurs_at(s, p + x.len(), y),
{
    lemma_occurs_index(s, p, x + y);
    assert(s.subrange(p, p + x.len()) =~= x) by {
        assert forall|j: int| 0 <= j < x.len() implies s.subrange(p, p + x.len())[j] == x[j] by {
            assert((x + y)[j] == x[j]);
        }
    }
    assert(s.subrange(p + x.len(), p + x.len() + y.len()) =~= y) by {
        assert forall|j: int| 0 <= j < y.len() implies s.subrange(
            p + x.len(),
            p + x.len() + y.len(),
        )[j] == y[j] by {
            assert((x + y)[x.len() + j] == y[j]);
        }
    }
}

/// The string rule on `d ':' b` at offset `p`, where the digits `d` denote
/// the length of `b`.
pub proof fn lemma_bytes_at(s: Seq<u8>, p: int, d: Seq<u8>, b: Seq<u8>)
    requires
        d.len() > 0,
        all_digits(d),
        digits_value(d) == b.len(),
        occurs_at(s, p, d + seq![58u8] + b),
    ensures
        is_digit(s[p]),
        parse_bytes(s, p) == Ok::<(Seq<u8>, int), BencodeError>((b, p + d.len() + 1 + b.len())),
{
    let x = d + seq![58u8] + b;
    lemma_occurs_index(s, p, x);
    let c = p + d.len();
    assert(s[c] == x[d.len() as int]);
    assert forall|j: int| p <= j < c implies s[j] != 58 by {
        assert(s[p + (j - p)] == x[j - p]);
        assert(x[j - p] == d[j - p]);
        assert(is_digit(d[j - p]));
    }
    lemma_find_from_first(s, p, c, 58);
    assert(s.subrange(p, c) =~= d) by {
        assert forall|j: int| 0 <= j < d.len() implies s.subrange(p, c)[j] == d[j] by {
            assert(x[j] == d[j]);
        }
    }
    assert(s.subrange(c + 1, c + 1 + b.len()) =~= b) by {
        assert forall|j: int| 0 <= j < b.len() implies s.subrange(c + 1, c + 1 + b.len())[j]
            == b[j] by {
            assert(x[d.len() + 1 + j] == b[j]);
            assert(s[p + (d.len() + 1 + j)] == x[d.len() + 1 + j]);
        }
    }
    assert(s[p] == x[0] && x[0] == d[0] && is_digit(d[0]));
}

/// The integer rule on `'i' t 'e'` at offset `p`, where `t` holds no `e`.
pub proof fn lemma_integer_at(s: Seq<u8>, p: int, t: Seq<u8>, depth: nat)
    requires
        forall|j: int| 0 <= j < t.len() ==> t[j] != 101,
        occurs_at(s, p, seq![105u8] + t + seq![101u8]),
    ensures
        parse_value(s, p, depth) == if canonical_int(t) && fits_i64(int_value(t)) {
            Ok::<(SValue, int), BencodeError>((SValue::Int(int_value(t)), p + t.len() + 2))
        } else {
            Err(BencodeError::InvalidFormat)
        },
{
    let x = seq![105u8] + t + seq![101u8];
    lemma_occurs_index(s, p, x);
    let e = p + t.len() + 1;
    assert(s[e] == x[t.len() + 1int]);
    assert forall|j: int| p + 1 <= j < e implies s[j] != 101 by {
        assert(s[p + (j - p)] == x[j - p]);
        assert(x[j - p] == t[j - p - 1]);
    }
    lemma_find_from_first(s, p + 1, e, 101);
    assert(s.subrange(p + 1, e) =~= t) by {
        assert forall|j: int| 0 <= j < t.len() implies s.subrange(p + 1, e)[j] == t[j] by {
            assert(x[1 + j] == t[j]);
            assert(s[p + (1 + j)] == x[1 + j]);
        }
    }
    assert(s[p] == x[0]);
}

/// A length-prefixed string decodes to exactly its bytes: for digits `d`
/// that denote the length of `b`, the input `d ':' b`, followed by anything,
/// decodes to `b`, and the next offset is just past `b`, that is the offset
/// of the colon plus one plus the length.
pub proof fn lemma_string_decodes(d: Seq<u8>, b: Seq<u8>, rest: Seq<u8>, depth: nat)
    requires
        d.len() > 0,
        all_digits(d),
        digits_value(d) == b.len(),
    ensures
        parse_value(d + seq![58u8] + b + rest, 0, depth) == Ok::<(SValue, int), BencodeError>(
            (SValue::Bytes(b), d.len() + 1 + b.len() as int),
        ),
{
    let x = d + seq![58u8] + b;
    let s = x + rest;
    assert(s.subrange(0, x.len() as int) =~= x);
    lemma_bytes_at(s, 0, d, b);
}

/// An integer decodes to the number its digits denote: for a token `t`
/// with no `e` in it, the input `'i' t 'e'`, followed by anything, decodes
/// to the number `t` denotes exactly when `t` is a canonical signed
/// decimal in the range of `i64`; otherwise it is an invalid format. So
/// `-0` and leading zeros are refused.
pub proof fn lemma_integer_decodes(t: Seq<u8>, rest: Seq<u8>, depth: nat)
    requires
        forall|j: int| 0 <= j < t.len() ==> t[j] != 101,
    ensures
        parse_value(seq![105u8] + t + seq![101u8] + rest, 0, depth) == if canonical_int(t)
            && fits_i64(int_value(t)) {
            Ok::<(SValue, int), BencodeError>((SValue::Int(int_value(t)), t.len() + 2int))
        } else {
            Err(BencodeError::InvalidFormat)
        },
{
    let x = seq![105u8] + t + seq![101u8];
    let s = x + rest;
    assert(s.subrange(0, x.len() as int) =~= x);
    lemma_integer_at(s, 0, t, depth);
}

/// Decoding depends on the input alone: the same bytes always give the
/// same value or the same error, whatever came before.
pub proof fn lemma_decode_deterministic(a: Seq<u8>, b: Seq<u8>, depth: nat)
    requires
        a == b,
    ensures
        parse_document(a, depth) == parse_document(b, depth),
        parse_value(a, 0, depth) == parse_value(b, 0, depth),
{
}

} // verus!
