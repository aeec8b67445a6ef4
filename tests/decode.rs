use bencode::{
    decode_bencoded_value, decode_dictionary, decode_integer, decode_list, decode_string,
    decode_value, decode_with_max_depth, BencodeError, Value, MAX_DEPTH,
};

fn bytes(s: &str) -> Value {
    Value::Bytes(s.as_bytes().to_vec())
}

#[test]
fn string_spam() {
    assert_eq!(decode_bencoded_value(b"4:spam"), Ok(bytes("spam")));
}

#[test]
fn integer_positive() {
    assert_eq!(decode_bencoded_value(b"i3e"), Ok(Value::Integer(3)));
}

#[test]
fn integer_negative() {
    assert_eq!(decode_bencoded_value(b"i-3e"), Ok(Value::Integer(-3)));
}

#[test]
fn integer_zero() {
    assert_eq!(decode_bencoded_value(b"i0e"), Ok(Value::Integer(0)));
}

#[test]
fn integer_extremes() {
    assert_eq!(
        decode_bencoded_value(b"i9223372036854775807e"),
        Ok(Value::Integer(i64::MAX))
    );
    assert_eq!(
        decode_bencoded_value(b"i-9223372036854775808e"),
        Ok(Value::Integer(i64::MIN))
    );
}

#[test]
fn integer_out_of_range() {
    assert_eq!(
        decode_bencoded_value(b"i9223372036854775808e"),
        Err(BencodeError::InvalidFormat)
    );
    assert_eq!(
        decode_bencoded_value(b"i-9223372036854775809e"),
        Err(BencodeError::InvalidFormat)
    );
    assert_eq!(
        decode_bencoded_value(b"i99999999999999999999999e"),
        Err(BencodeError::InvalidFormat)
    );
}

#[test]
fn integer_negative_zero_rejected() {
    assert_eq!(decode_bencoded_value(b"i-0e"), Err(BencodeError::InvalidFormat));
}

#[test]
fn integer_leading_zero_rejected() {
    assert_eq!(decode_bencoded_value(b"i04e"), Err(BencodeError::InvalidFormat));
    assert_eq!(decode_bencoded_value(b"i-04e"), Err(BencodeError::InvalidFormat));
}

#[test]
fn integer_malformed() {
    assert_eq!(decode_bencoded_value(b"ie"), Err(BencodeError::InvalidFormat));
    assert_eq!(decode_bencoded_value(b"i-e"), Err(BencodeError::InvalidFormat));
    assert_eq!(decode_bencoded_value(b"i1x2e"), Err(BencodeError::InvalidFormat));
    assert_eq!(decode_bencoded_value(b"i+1e"), Err(BencodeError::InvalidFormat));
}

#[test]
fn integer_next_offset() {
    assert_eq!(decode_integer(b"i42e4:spam", 0), Ok((Value::Integer(42), 4)));
}

#[test]
fn list_of_strings() {
    assert_eq!(
        decode_bencoded_value(b"l4:spam4:eggse"),
        Ok(Value::List(vec![bytes("spam"), bytes("eggs")]))
    );
}

#[test]
fn dictionary_of_strings() {
    assert_eq!(
        decode_bencoded_value(b"d3:cow3:moo4:spam4:eggse"),
        Ok(Value::Dictionary(vec![
            (b"cow".to_vec(), bytes("moo")),
            (b"spam".to_vec(), bytes("eggs")),
        ]))
    );
}

#[test]
fn empty_input() {
    assert_eq!(decode_bencoded_value(b""), Err(BencodeError::EmptyInput));
}

#[test]
fn length_past_end() {
    assert_eq!(decode_bencoded_value(b"5:hi"), Err(BencodeError::InvalidLength));
}

#[test]
fn integer_without_terminator() {
    assert_eq!(decode_bencoded_value(b"i35"), Err(BencodeError::InvalidFormat));
}

#[test]
fn empty_list_next_offset() {
    assert_eq!(decode_value(b"le", 0, MAX_DEPTH), Ok((Value::List(vec![]), 2)));
    assert_eq!(decode_list(b"le", 0, MAX_DEPTH), Ok((Value::List(vec![]), 2)));
}

#[test]
fn list_without_terminator() {
    assert_eq!(
        decode_bencoded_value(b"l4:spam4:eggs"),
        Err(BencodeError::InvalidFormat)
    );
}

#[test]
fn nested_lists() {
    assert_eq!(
        decode_bencoded_value(b"lli4ei5eee"),
        Ok(Value::List(vec![Value::List(vec![
            Value::Integer(4),
            Value::Integer(5)
        ])]))
    );
}

#[test]
fn nested_list_offset_inside_outer() {
    assert_eq!(
        decode_value(b"lli4ei5eei6ee", 1, MAX_DEPTH),
        Ok((
            Value::List(vec![Value::Integer(4), Value::Integer(5)]),
            9
        ))
    );
}

#[test]
fn same_error_on_repeated_calls() {
    let inputs: [&[u8]; 5] = [b"", b"5:hi", b"i35", b"l4:spam", b"x"];
    for input in inputs {
        let first = decode_bencoded_value(input);
        let second = decode_bencoded_value(input);
        assert!(first.is_err());
        assert_eq!(first, second);
    }
}

#[test]
fn string_next_offset_is_colon_plus_one_plus_length() {
    assert_eq!(decode_string(b"4:spamxyz", 0), Ok((bytes("spam"), 6)));
    assert_eq!(decode_string(b"10:abcdefghij", 0), Ok((bytes("abcdefghij"), 13)));
    assert_eq!(decode_string(b"0:", 0), Ok((bytes(""), 2)));
}

#[test]
fn string_keeps_raw_bytes() {
    assert_eq!(
        decode_bencoded_value(b"3:\xff\x00e"),
        Ok(Value::Bytes(vec![0xff, 0x00, b'e']))
    );
}

#[test]
fn string_missing_colon() {
    assert_eq!(decode_bencoded_value(b"4spam"), Err(BencodeError::MissingColon));
}

#[test]
fn string_bad_length() {
    assert_eq!(decode_string(b"4x:spam", 0), Err(BencodeError::InvalidLength));
    assert_eq!(decode_string(b":spam", 0), Err(BencodeError::InvalidLength));
    assert_eq!(
        decode_string(b"99999999999999999999999:a", 0),
        Err(BencodeError::InvalidLength)
    );
}

#[test]
fn unknown_leading_byte() {
    assert_eq!(decode_bencoded_value(b"x"), Err(BencodeError::InvalidFormat));
    assert_eq!(decode_bencoded_value(b"l?e"), Err(BencodeError::InvalidFormat));
}

#[test]
fn trailing_bytes_rejected() {
    assert_eq!(decode_bencoded_value(b"i3ei4e"), Err(BencodeError::InvalidFormat));
}

#[test]
fn dictionary_non_string_key() {
    assert_eq!(decode_bencoded_value(b"di1e3:mooe"), Err(BencodeError::InvalidFormat));
}

#[test]
fn dictionary_duplicate_key() {
    assert_eq!(
        decode_bencoded_value(b"d3:cow3:moo3:cowi1ee"),
        Err(BencodeError::DuplicateKey)
    );
}

#[test]
fn dictionary_without_terminator() {
    assert_eq!(decode_bencoded_value(b"d3:cow3:moo"), Err(BencodeError::InvalidFormat));
}

#[test]
fn dictionary_nested_values() {
    assert_eq!(
        decode_dictionary(b"d1:ali1ei2ee1:bd1:ci3eee", 0, MAX_DEPTH),
        Ok((
            Value::Dictionary(vec![
                (
                    b"a".to_vec(),
                    Value::List(vec![Value::Integer(1), Value::Integer(2)])
                ),
                (
                    b"b".to_vec(),
                    Value::Dictionary(vec![(b"c".to_vec(), Value::Integer(3))])
                ),
            ]),
            24
        ))
    );
}

#[test]
fn depth_limit() {
    assert_eq!(
        decode_with_max_depth(b"lli4ei5eee", 2),
        Ok(Value::List(vec![Value::List(vec![
            Value::Integer(4),
            Value::Integer(5)
        ])]))
    );
    assert_eq!(
        decode_with_max_depth(b"lli4ei5eee", 1),
        Err(BencodeError::MaxDepthExceeded)
    );
    assert_eq!(decode_with_max_depth(b"de", 0), Err(BencodeError::MaxDepthExceeded));
    assert_eq!(decode_with_max_depth(b"i7e", 0), Ok(Value::Integer(7)));
}

#[test]
fn deep_nesting_is_refused_not_crashing() {
    let mut input = vec![b'l'; 100_000];
    input.extend(vec![b'e'; 100_000]);
    assert_eq!(decode_bencoded_value(&input), Err(BencodeError::MaxDepthExceeded));
}

#[test]
fn error_messages() {
    assert_eq!(BencodeError::EmptyInput.message(), "Input string is empty");
    assert_eq!(BencodeError::InvalidFormat.message(), "Invalid bencode format");
    assert!(!BencodeError::DuplicateKey.message().is_empty());
}

#[test]
fn string_length_with_leading_zero() {
    assert_eq!(decode_bencoded_value(b"04:spam"), Ok(bytes("spam")));
}

#[test]
fn canonical_encoding_decodes_back() {
    let encoded: &[u8] = b"d4:listli-12e0:e3:numi0e3:str3:\x01\x02ee";
    assert_eq!(
        decode_bencoded_value(encoded),
        Ok(Value::Dictionary(vec![
            (
                b"list".to_vec(),
                Value::List(vec![Value::Integer(-12), bytes("")])
            ),
            (b"num".to_vec(), Value::Integer(0)),
            (b"str".to_vec(), Value::Bytes(vec![1, 2, b'e'])),
        ]))
    );
}
