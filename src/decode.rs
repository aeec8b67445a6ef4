//! The decoding rules, each proved to compute its rule of [`crate::grammar`].
use vstd::prelude::*;
use crate::grammar::{
    advances, all_digits, digits_value, find_from, is_digit, lemma_digits_value_prefix,
    lemma_digits_value_snoc, parse_bytes, parse_document, parse_entries, parse_integer, parse_items,
    parse_string, parse_value, has_key, SResult,
};
use crate::value::{
    entries_model, lemma_entries_model_index, lemma_entries_model_push, lemma_list_model_push,
    list_model, BencodeError, SValue, Value,
};

verus! {

/// The nesting depth that [`decode_bencoded_value`] allows.
pub const MAX_DEPTH: usize = 256;

/// The model of what a rule returned.
pub open spec fn outcome(r: Result<(Value, usize), BencodeError>) -> SResult {
    match r {
        Ok((v, n)) => Ok((v@, n as int)),
        Err(e) => Err(e),
    }
}

/// The model of what a whole-input decode returned.
pub open spec fn document_outcome(r: Result<Value, BencodeError>) -> Result<SValue, BencodeError> {
    match r {
        Ok(v) => Ok(v@),
        Err(e) => Err(e),
    }
}

/// Whether a successful rule that started at `pos` ended inside the input,
/// after `pos`.
pub open spec fn ends_after(r: Result<(Value, usize), BencodeError>, s: Seq<u8>, pos: int) -> bool {
    r matches Ok((_, q)) ==> advances(s, pos, q as int)
}

/// The offset of the first byte `c` at or after `from`.
fn find_byte(input: &[u8], from: usize, c: u8) -> (r: Option<usize>)
    ensures
        match r {
            None => find_from(input@, from as int, c) is None,
            Some(i) => find_from(input@, from as int, c) == Some(i as int) && from <= i
                < input.len() && input@[i as int] == c,
        },
{
    let mut i: usize = from;
    while i < input.len()
        invariant
            from <= i,
            find_from(input@, from as int, c) == find_from(input@, i as int, c),
        decreases input.len() - i,
    {
        if input[i] == c {
            return Some(i);
        }
        i = i + 1;
    }
    None
}

/// The number that the digits `input[start..end]` denote, if they are all
/// digits, there is at least one, and the number is at most `limit`.
fn parse_digits(input: &[u8], start: usize, end: usize, limit: u64) -> (r: Option<u64>)
    requires
        start <= end <= input.len(),
    ensures
        ({
            let d = input@.subrange(start as int, end as int);
            match r {
                Some(n) => d.len() > 0 && all_digits(d) && n as int == digits_value(d) && n <= limit,
                None => d.len() == 0 || !all_digits(d) || digits_value(d) > limit,
            }
        }),
{
    if start == end {
        return None;
    }
    let ghost s = input@;
    let mut acc: u64 = 0;
    let mut i: usize = start;
    while i < end
        invariant
            start <= i <= end <= input.len(),
            s == input@,
            all_digits(s.subrange(start as int, i as int)),
            acc as int == digits_value(s.subrange(start as int, i as int)),
            acc <= limit,
        decreases end - i,
    {
        let b = input[i];
        proof {
            lemma_digits_value_snoc(s, start as int, i as int);
        }
        let ghost d = s.subrange(start as int, end as int);
        let ghost head = s.subrange(start as int, i as int + 1);
        proof {
            assert(d.take(i - start + 1) =~= head);
        }
        if b < 48 || b > 57 {
            assert(!is_digit(d[i - start]));
            return None;
        }
        let digit: u64 = (b - 48) as u64;
        if digit > limit || acc > (limit - digit) / 10 {
            proof {
                assert(acc * 10 + digit > limit) by (nonlinear_arith)
                    requires
                        digit > limit || acc > (limit - digit) / 10,
                        limit >= 0,
                        acc >= 0,
                ;
                if all_digits(d) {
                    lemma_digits_value_prefix(d, i - start + 1);
                }
            }
            return None;
        }
        proof {
            assert(acc * 10 + digit <= limit) by (nonlinear_arith)
                requires
                    digit <= limit,
                    acc <= (limit - digit) / 10,
                    acc >= 0,
            ;
            assert(all_digits(head)) by {
                assert forall|j: int| 0 <= j < head.len() implies is_digit(#[trigger] head[j]) by {
                    if j < i - start {
                        assert(head[j] == s.subrange(start as int, i as int)[j]);
                    }
                }
            }
        }
        acc = acc * 10 + digit;
        i = i + 1;
    }
    assert(s.subrange(start as int, i as int) =~= s.subrange(start as int, end as int));
    Some(acc)
}

/// A copy of `input[a..b]`.
fn copy_range(input: &[u8], a: usize, b: usize) -> (r: Vec<u8>)
    requires
        a <= b <= input.len(),
    ensures
        r@ == input@.subrange(a as int, b as int),
{
    let mut r: Vec<u8> = Vec::new();
    let mut i: usize = a;
    while i < b
        invariant
            a <= i <= b <= input.len(),
            r@ == input@.subrange(a as int, i as int),
        decreases b - i,
    {
        r.push(input[i]);
        i = i + 1;
        assert(r@ =~= input@.subrange(a as int, i as int));
    }
    r
}

/// The bytes of the length-prefixed string at `pos`, and the offset after it.
fn decode_bytes(input: &[u8], pos: usize) -> (r: Result<(Vec<u8>, usize), BencodeError>)
    ensures
        match r {
            Ok((b, n)) => parse_bytes(input@, pos as int) == Ok::<(Seq<u8>, int), BencodeError>(
                (b@, n as int),
            ) && pos < n <= input.len(),
            Err(e) => parse_bytes(input@, pos as int) == Err::<(Seq<u8>, int), BencodeError>(e),
        },
{
    let c = match find_byte(input, pos, 58) {
        None => return Err(BencodeError::MissingColon),
        Some(c) => c,
    };
    let remaining = input.len() - (c + 1);
    match parse_digits(input, pos, c, remaining as u64) {
        None => Err(BencodeError::InvalidLength),
        Some(n) => {
            let end = c + 1 + n as usize;
            let b = copy_range(input, c + 1, end);
            Ok((b, end))
        },
    }
}

/// The string rule at `pos`: a length prefix, a `:`, and that many bytes.
pub fn decode_string(input: &[u8], pos: usize) -> (r: Result<(Value, usize), BencodeError>)
    ensures
        outcome(r) == parse_string(input@, pos as int),
        ends_after(r, input@, pos as int),
{
    match decode_bytes(input, pos) {
        Err(e) => Err(e),
        Ok((b, n)) => Ok((Value::Bytes(b), n)),
    }
}

/// The integer rule at `pos`, the offset of the `i`: a canonical signed
/// decimal in the range of `i64`, then `e`.
pub fn decode_integer(input: &[u8], pos: usize) -> (r: Result<(Value, usize), BencodeError>)
    requires
        pos < input.len(),
        input@[pos as int] == 105,
    ensures
        outcome(r) == parse_integer(input@, pos as int),
        ends_after(r, input@, pos as int),
{
    let ghost s = input@;
    let start = pos + 1;
    let e = match find_byte(input, start, 101) {
        None => return Err(BencodeError::InvalidFormat),
        Some(e) => e,
    };
    let ghost t = s.subrange(start as int, e as int);
    let neg = start < e && input[start] == 45;
    let ds = if neg {
        start + 1
    } else {
        start
    };
    let ghost d = s.subrange(ds as int, e as int);
    proof {
        if neg {
            assert(t.drop_first() =~= d);
        } else {
            assert(t =~= d);
        }
    }
    if ds >= e {
        return Err(BencodeError::InvalidFormat);
    }
    if input[ds] == 48 && (neg || e - ds > 1) {
        assert(d[0] == 48);
        return Err(BencodeError::InvalidFormat);
    }
    let limit: u64 = if neg {
        9223372036854775808
    } else {
        9223372036854775807
    };
    match parse_digits(input, ds, e, limit) {
        None => Err(BencodeError::InvalidFormat),
        Some(m) => {
            let v: i64 = if !neg {
                m as i64
            } else if m == 9223372036854775808 {
                i64::MIN
            } else {
                -(m as i64)
            };
            Ok((Value::Integer(v), e + 1))
        },
    }
}

/// Whether two byte sequences are equal.
fn bytes_equal(a: &[u8], b: &[u8]) -> (r: bool)
    ensures
        r == (a@ == b@),
{
    if a.len() != b.len() {
        return false;
    }
    let mut i: usize = 0;
    while i < a.len()
        invariant
            a.len() == b.len(),
            i <= a.len(),
            forall|j: int| 0 <= j < i ==> a@[j] == b@[j],
        decreases a.len() - i,
    {
        if a[i] != b[i] {
            return false;
        }
        i = i + 1;
    }
    assert(a@ =~= b@);
    true
}

/// Whether `key` is already a key of `entries`.
fn contains_key(entries: &Vec<(Vec<u8>, Value)>, key: &Vec<u8>) -> (r: bool)
    ensures
        r == has_key(entries_model(entries@), key@),
{
    proof {
        lemma_entries_model_index(entries@);
    }
    let mut j: usize = 0;
    while j < entries.len()
        invariant
            j <= entries.len(),
            entries_model(entries@).len() == entries@.len(),
            forall|i: int| 0 <= i < j ==> (#[trigger] entries_model(entries@)[i]).0 != key@,
        decreases entries.len() - j,
    {
        proof {
            lemma_entries_model_index(entries@);
        }
        if bytes_equal(entries[j].0.as_slice(), key.as_slice()) {
            assert(entries_model(entries@)[j as int].0 == key@);
            return true;
        }
        j = j + 1;
    }
    false
}

/// The dispatcher: decodes the value at `pos`, choosing the rule by its
/// first byte. `depth` is how many levels of lists and dictionaries may
/// still be opened.
pub fn decode_value(input: &[u8], pos: usize, depth: usize) -> (r: Result<(Value, usize), BencodeError>)
    ensures
        outcome(r) == parse_value(input@, pos as int, depth as nat),
        ends_after(r, input@, pos as int),
    decreases input.len() - pos, 1usize,
{
    if pos >= input.len() {
        return Err(BencodeError::EmptyInput);
    }
    let b = input[pos];
    if 48 <= b && b <= 57 {
        decode_string(input, pos)
    } else if b == 105 {
        decode_integer(input, pos)
    } else if b == 108 {
        decode_list(input, pos, depth)
    } else if b == 100 {
        decode_dictionary(input, pos, depth)
    } else {
        Err(BencodeError::InvalidFormat)
    }
}

/// The list rule at `pos`, the offset of the `l`: values until the `e`
/// that closes this list.
pub fn decode_list(input: &[u8], pos: usize, depth: usize) -> (r: Result<(Value, usize), BencodeError>)
    requires
        pos < input.len(),
        input@[pos as int] == 108,
    ensures
        outcome(r) == parse_value(input@, pos as int, depth as nat),
        ends_after(r, input@, pos as int),
    decreases input.len() - pos, 0usize,
{
    let ghost s = input@;
    if depth == 0 {
        return Err(BencodeError::MaxDepthExceeded);
    }
    let mut items: Vec<Value> = Vec::new();
    let mut p: usize = pos + 1;
    loop
        invariant
            s == input@,
            pos < p <= input.len(),
            depth > 0,
            parse_value(s, pos as int, depth as nat) == parse_items(
                s,
                p as int,
                (depth - 1) as nat,
                list_model(items@),
            ),
        decreases input.len() - p,
    {
        if p >= input.len() {
            return Err(BencodeError::InvalidFormat);
        }
        if input[p] == 101 {
            return Ok((Value::List(items), p + 1));
        }
        match decode_value(input, p, depth - 1) {
            Err(e) => return Err(e),
            Ok((v, q)) => {
                proof {
                    lemma_list_model_push(items@, v);
                }
                items.push(v);
                p = q;
            },
        }
    }
}

/// The dictionary rule at `pos`, the offset of the `d`: a string key and a
/// value, repeated until the `e` that closes this dictionary. A key that
/// repeats is an error.
pub fn decode_dictionary(input: &[u8], pos: usize, depth: usize) -> (r: Result<(Value, usize), BencodeError>)
    requires
        pos < input.len(),
        input@[pos as int] == 100,
    ensures
        outcome(r) == parse_value(input@, pos as int, depth as nat),
        ends_after(r, input@, pos as int),
    decreases input.len() - pos, 0usize,
{
    let ghost s = input@;
    if depth == 0 {
        return Err(BencodeError::MaxDepthExceeded);
    }
    let mut entries: Vec<(Vec<u8>, Value)> = Vec::new();
    let mut p: usize = pos + 1;
    loop
        invariant
            s == input@,
            pos < p <= input.len(),
            depth > 0,
            parse_value(s, pos as int, depth as nat) == parse_entries(
                s,
                p as int,
                (depth - 1) as nat,
                entries_model(entries@),
            ),
        decreases input.len() - p,
    {
        if p >= input.len() {
            return Err(BencodeError::InvalidFormat);
        }
        let b = input[p];
        if b == 101 {
            return Ok((Value::Dictionary(entries), p + 1));
        }
        if b < 48 || b > 57 {
            return Err(BencodeError::InvalidFormat);
        }
        let (key, k) = match decode_bytes(input, p) {
            Err(e) => return Err(e),
            Ok(pair) => pair,
        };
        if contains_key(&entries, &key) {
            return Err(BencodeError::DuplicateKey);
        }
        match decode_value(input, k, depth - 1) {
            Err(e) => return Err(e),
            Ok((v, q)) => {
                proof {
                    lemma_entries_model_push(entries@, key, v);
                }
                entries.push((key, v));
                p = q;
            },
        }
    }
}

/// Decodes a whole input as one value, allowing `max_depth` levels of
/// nested lists and dictionaries. Bytes left after the value are an error.
pub fn decode_with_max_depth(input: &[u8], max_depth: usize) -> (r: Result<Value, BencodeError>)
    ensures
        document_outcome(r) == parse_document(input@, max_depth as nat),
{
    match decode_value(input, 0, max_depth) {
        Err(e) => Err(e),
        Ok((v, q)) => if q == input.len() {
            Ok(v)
        } else {
            Err(BencodeError::InvalidFormat)
        },
    }
}

/// Decodes a whole input as one value, with at most [`MAX_DEPTH`] levels of
/// nested lists and dictionaries. Bytes left after the value are an error.
pub fn decode_bencoded_value(input: &[u8]) -> (r: Result<Value, BencodeError>)
    ensures
        document_outcome(r) == parse_document(input@, MAX_DEPTH as nat),
{
    decode_with_max_depth(input, MAX_DEPTH)
}

} // verus!
