//! The Bencode grammar as spec functions over the input bytes.
//!
//! Each rule takes the whole input `s` and a start offset, and gives either
//! the decoded value with the offset just past it, or the first error met.
use vstd::prelude::*;
use crate::value::{BencodeError, SValue};

verus! {

/// The outcome of a rule: a value and the offset after it, or an error.
pub type SResult = Result<(SValue, int), BencodeError>;

pub open spec fn is_digit(b: u8) -> bool {
    48 <= b <= 57
}

pub open spec fn all_digits(d: Seq<u8>) -> bool {
    forall|i: int| 0 <= i < d.len() ==> is_digit(#[trigger] d[i])
}

/// The number that a sequence of decimal digits denotes.
pub open spec fn digits_value(d: Seq<u8>) -> nat
    decreases d.len(),
{
    if d.len() == 0 {
        0
    } else {
        digits_value(d.drop_last()) * 10 + (d.last() - 48) as nat
    }
}

/// The offset of the first byte `c` at or after `i`, if there is one.
pub open spec fn find_from(s: Seq<u8>, i: int, c: u8) -> Option<int>
    decreases s.len() - i,
{
    if i < 0 || i >= s.len() {
        None
    } else if s[i] == c {
        Some(i)
    } else {
        find_from(s, i + 1, c)
    }
}

/// Digits with no leading zero, except the single digit `0`.
pub open spec fn canonical_digits(d: Seq<u8>) -> bool {
    &&& d.len() > 0
    &&& all_digits(d)
    &&& (d.len() == 1 || d[0] != 48)
}

/// A canonical signed decimal: an optional `-` then canonical digits,
/// with no negative zero.
pub open spec fn canonical_int(t: Seq<u8>) -> bool {
    if t.len() > 0 && t[0] == 45 {
        canonical_digits(t.drop_first()) && t[1] != 48
    } else {
        canonical_digits(t)
    }
}

/// The number that a canonical signed decimal denotes.
pub open spec fn int_value(t: Seq<u8>) -> int {
    if t.len() > 0 && t[0] == 45 {
        -digits_value(t.drop_first())
    } else {
        digits_value(t) as int
    }
}

pub open spec fn fits_i64(n: int) -> bool {
    i64::MIN <= n <= i64::MAX
}

/// The string rule, without wrapping: the bytes of a length-prefixed
/// string that starts at `pos`, and the offset after them.
pub open spec fn parse_bytes(s: Seq<u8>, pos: int) -> Result<(Seq<u8>, int), BencodeError> {
    match find_from(s, pos, 58) {
        None => Err(BencodeError::MissingColon),
        Some(c) => {
            let prefix = s.subrange(pos, c);
            let end = c + 1 + digits_value(prefix);
            if prefix.len() == 0 || !all_digits(prefix) || end > s.len() {
                Err(BencodeError::InvalidLength)
            } else {
                Ok((s.subrange(c + 1, end), end))
            }
        },
    }
}

/// The string rule: `<decimal length> ':' <that many bytes>`.
pub open spec fn parse_string(s: Seq<u8>, pos: int) -> SResult {
    match parse_bytes(s, pos) {
        Err(e) => Err(e),
        Ok((b, end)) => Ok((SValue::Bytes(b), end)),
    }
}

/// The integer rule: `'i' <canonical signed decimal> 'e'`, in the range of `i64`.
/// `pos` is the offset of the `i`.
pub open spec fn parse_integer(s: Seq<u8>, pos: int) -> SResult {
    match find_from(s, pos + 1, 101) {
        None => Err(BencodeError::InvalidFormat),
        Some(e) => {
            let t = s.subrange(pos + 1, e);
            if canonical_int(t) && fits_i64(int_value(t)) {
                Ok((SValue::Int(int_value(t)), e + 1))
            } else {
                Err(BencodeError::InvalidFormat)
            }
        },
    }
}

/// Whether a rule that started at `p` ended at `q` within the input.
/// Every rule does; the list and dictionary rules test it so that their
/// recursion visibly moves forward through the input.
pub open spec fn advances(s: Seq<u8>, p: int, q: int) -> bool {
    p < q <= s.len()
}

/// Whether `key` is already a key of `entries`.
pub open spec fn has_key(entries: Seq<(Seq<u8>, SValue)>, key: Seq<u8>) -> bool {
    exists|j: int| 0 <= j < entries.len() && (#[trigger] entries[j]).0 == key
}

/// The dispatcher: picks a rule by the byte at `pos`. `depth` is how many
/// levels of lists and dictionaries may still be opened.
pub open spec fn parse_value(s: Seq<u8>, pos: int, depth: nat) -> SResult
    decreases s.len() - pos, 0int,
{
    if pos < 0 || pos >= s.len() {
        Err(BencodeError::EmptyInput)
    } else if is_digit(s[pos]) {
        parse_string(s, pos)
    } else if s[pos] == 105 {
        parse_integer(s, pos)
    } else if s[pos] == 108 {
        if depth == 0 {
            Err(BencodeError::MaxDepthExceeded)
        } else {
            parse_items(s, pos + 1, (depth - 1) as nat, Seq::empty())
        }
    } else if s[pos] == 100 {
        if depth == 0 {
            Err(BencodeError::MaxDepthExceeded)
        } else {
            parse_entries(s, pos + 1, (depth - 1) as nat, Seq::empty())
        }
    } else {
        Err(BencodeError::InvalidFormat)
    }
}

/// The body of a list from offset `p` on, after the elements `acc`:
/// elements until an `e` at this level.
pub open spec fn parse_items(s: Seq<u8>, p: int, depth: nat, acc: Seq<SValue>) -> SResult
    decreases s.len() - p, 1int,
{
    if p < 0 || p >= s.len() {
        Err(BencodeError::InvalidFormat)
    } else if s[p] == 101 {
        Ok((SValue::List(acc), p + 1))
    } else {
        match parse_value(s, p, depth) {
            Err(e) => Err(e),
            Ok((v, q)) => if advances(s, p, q) {
                parse_items(s, q, depth, acc.push(v))
            } else {
                Err(BencodeError::InvalidFormat)
            },
        }
    }
}

/// The body of a dictionary from offset `p` on, after the entries `acc`:
/// a string key and a value, repeated until an `e` at this level.
pub open spec fn parse_entries(
    s: Seq<u8>,
    p: int,
    depth: nat,
    acc: Seq<(Seq<u8>, SValue)>,
) -> SResult
    decreases s.len() - p, 1int,
{
    if p < 0 || p >= s.len() {
        Err(BencodeError::InvalidFormat)
    } else if s[p] == 101 {
        Ok((SValue::Dict(acc), p + 1))
    } else if !is_digit(s[p]) {
        Err(BencodeError::InvalidFormat)
    } else {
        match parse_bytes(s, p) {
            Err(e) => Err(e),
            Ok((key, k)) => if has_key(acc, key) {
                Err(BencodeError::DuplicateKey)
            } else if !advances(s, p, k) {
                Err(BencodeError::InvalidFormat)
            } else {
                match parse_value(s, k, depth) {
                    Err(e) => Err(e),
                    Ok((v, q)) => if advances(s, k, q) {
                        parse_entries(s, q, depth, acc.push((key, v)))
                    } else {
                        Err(BencodeError::InvalidFormat)
                    },
                }
            },
        }
    }
}

/// A whole input: one value that ends exactly at the end of the input.
pub open spec fn parse_document(s: Seq<u8>, depth: nat) -> Result<SValue, BencodeError> {
    match parse_value(s, 0, depth) {
        Err(e) => Err(e),
        Ok((v, q)) => if q == s.len() {
            Ok(v)
        } else {
            Err(BencodeError::InvalidFormat)
        },
    }
}

} // verus!

verus! {

/// Appending one digit to a sequence of digits.
pub proof fn lemma_digits_value_snoc(s: Seq<u8>, a: int, b: int)
    requires
        0 <= a <= b < s.len(),
    ensures
        digits_value(s.subrange(a, b + 1)) == digits_value(s.subrange(a, b)) * 10 + (s[b] - 48) as nat,
{
    assert(s.subrange(a, b + 1).drop_last() =~= s.subrange(a, b));
}

/// A prefix of a sequence of digits denotes no more than the whole.
pub proof fn lemma_digits_value_prefix(d: Seq<u8>, k: int)
    requires
        all_digits(d),
        0 <= k <= d.len(),
    ensures
        digits_value(d.take(k)) <= digits_value(d),
    decreases d.len(),
{
    if k == d.len() {
        assert(d.take(k) =~= d);
    } else {
        let e = d.drop_last();
        assert(e.take(k) =~= d.take(k));
        assert(all_digits(e)) by {
            assert forall|i: int| 0 <= i < e.len() implies is_digit(#[trigger] e[i]) by {
                assert(e[i] == d[i]);
            }
        }
        lemma_digits_value_prefix(e, k);
    }
}

} // verus!
