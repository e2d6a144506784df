//! Decoder and encoder behaviour on concrete byte streams.

use bencode::decode::{decode, parse_torrent_file};
use bencode::encode::encode;
use bencode::value::{dict_insert, ParseError, Value};

fn bs(b: &[u8]) -> Value {
    Value::ByteString(b.to_vec())
}

#[test]
fn decodes_byte_string() {
    assert_eq!(decode(b"4:spam"), Ok(Some(bs(b"spam"))));
}

#[test]
fn decodes_integer() {
    assert_eq!(decode(b"i42e"), Ok(Some(Value::Integer(42))));
}

#[test]
fn decodes_negative_integer() {
    assert_eq!(decode(b"i-3e"), Ok(Some(Value::Integer(-3))));
}

#[test]
fn decodes_zero() {
    assert_eq!(decode(b"i0e"), Ok(Some(Value::Integer(0))));
}

#[test]
fn decodes_list() {
    assert_eq!(
        decode(b"l4:spam4:eggse"),
        Ok(Some(Value::List(vec![bs(b"spam"), bs(b"eggs")])))
    );
}

#[test]
fn decodes_dictionary_and_reencodes_exactly() {
    let v = decode(b"d3:cow3:moo4:spam4:eggse").unwrap().unwrap();
    assert_eq!(
        v,
        Value::Dictionary(vec![
            (b"cow".to_vec(), bs(b"moo")),
            (b"spam".to_vec(), bs(b"eggs")),
        ])
    );
    assert_eq!(encode(&v), b"d3:cow3:moo4:spam4:eggse".to_vec());
}

#[test]
fn empty_input_is_none() {
    assert_eq!(decode(b""), Ok(None));
}

#[test]
fn empty_byte_string() {
    assert_eq!(decode(b"0:"), Ok(Some(bs(b""))));
}

#[test]
fn truncated_byte_string_is_eof() {
    assert_eq!(decode(b"3:ab"), Err(ParseError::UnexpectedEOF));
}

#[test]
fn integer_leading_zero_is_invalid_length() {
    assert_eq!(decode(b"i03e"), Err(ParseError::InvalidLength));
}

#[test]
fn root_list_is_invalid_format() {
    assert_eq!(
        parse_torrent_file(b"l4:spam4:eggse"),
        Err(ParseError::InvalidFormat)
    );
}

#[test]
fn root_dictionary_parses() {
    let root = parse_torrent_file(b"d3:cow3:mooe").unwrap();
    assert_eq!(root, vec![(b"cow".to_vec(), bs(b"moo"))]);
}

#[test]
fn empty_input_root_is_invalid_format() {
    assert_eq!(parse_torrent_file(b""), Err(ParseError::InvalidFormat));
}

#[test]
fn canonical_ordering_of_inserted_keys() {
    let mut d: Vec<(Vec<u8>, Value)> = Vec::new();
    dict_insert(&mut d, b"spam".to_vec(), Value::Integer(1));
    dict_insert(&mut d, b"cow".to_vec(), Value::Integer(2));
    dict_insert(&mut d, b"abc".to_vec(), Value::Integer(3));
    let keys: Vec<&[u8]> = d.iter().map(|e| e.0.as_slice()).collect();
    assert_eq!(keys, vec![&b"abc"[..], &b"cow"[..], &b"spam"[..]]);
    assert_eq!(
        encode(&Value::Dictionary(d)),
        b"d3:abci3e3:cowi2e4:spami1ee".to_vec()
    );
}

#[test]
fn insertion_order_does_not_change_encoding() {
    let mut d1: Vec<(Vec<u8>, Value)> = Vec::new();
    dict_insert(&mut d1, b"spam".to_vec(), Value::Integer(1));
    dict_insert(&mut d1, b"cow".to_vec(), Value::Integer(2));
    dict_insert(&mut d1, b"abc".to_vec(), Value::Integer(3));
    let mut d2: Vec<(Vec<u8>, Value)> = Vec::new();
    dict_insert(&mut d2, b"abc".to_vec(), Value::Integer(3));
    dict_insert(&mut d2, b"cow".to_vec(), Value::Integer(2));
    dict_insert(&mut d2, b"spam".to_vec(), Value::Integer(1));
    assert_eq!(d1, d2);
    assert_eq!(encode(&Value::Dictionary(d1)), encode(&Value::Dictionary(d2)));
}

#[test]
fn duplicate_key_keeps_last_value() {
    assert_eq!(
        decode(b"d1:ai1e1:ai2ee"),
        Ok(Some(Value::Dictionary(vec![(
            b"a".to_vec(),
            Value::Integer(2)
        )])))
    );
}

#[test]
fn round_trip_nested_value() {
    let v = Value::Dictionary(vec![
        (
            b"files".to_vec(),
            Value::List(vec![
                Value::Integer(-7),
                bs(b""),
                Value::List(vec![]),
                Value::Dictionary(vec![]),
            ]),
        ),
        (b"name".to_vec(), bs(b"spam")),
    ]);
    let enc = encode(&v);
    assert_eq!(decode(&enc), Ok(Some(v)));
}

#[test]
fn encoding_is_idempotent() {
    let v = Value::List(vec![
        Value::Integer(0),
        Value::Integer(i64::MAX),
        Value::Integer(i64::MIN),
        bs(b"x:y"),
    ]);
    let once = encode(&v);
    let again = encode(&decode(&once).unwrap().unwrap());
    assert_eq!(once, again);
}

#[test]
fn min_integer_round_trips() {
    assert_eq!(
        decode(b"i-9223372036854775808e"),
        Ok(Some(Value::Integer(i64::MIN)))
    );
    assert_eq!(
        encode(&Value::Integer(i64::MIN)),
        b"i-9223372036854775808e".to_vec()
    );
}

#[test]
fn integer_overflow_is_invalid_length() {
    assert_eq!(
        decode(b"i9223372036854775808e"),
        Err(ParseError::InvalidLength)
    );
    assert_eq!(
        decode(b"i-9223372036854775809e"),
        Err(ParseError::InvalidLength)
    );
}

#[test]
fn negative_zero_is_invalid_length() {
    assert_eq!(decode(b"i-0e"), Err(ParseError::InvalidLength));
}

#[test]
fn empty_integer_is_unexpected_byte() {
    assert_eq!(decode(b"ie"), Err(ParseError::UnexpectedByte(b'e')));
    assert_eq!(decode(b"i-e"), Err(ParseError::UnexpectedByte(b'e')));
}

#[test]
fn stray_byte_in_integer_is_unexpected_byte() {
    assert_eq!(decode(b"i4xe"), Err(ParseError::UnexpectedByte(b'x')));
}

#[test]
fn unknown_leading_byte_is_unexpected_byte() {
    assert_eq!(decode(b"x"), Err(ParseError::UnexpectedByte(b'x')));
}

#[test]
fn top_level_terminator_is_unexpected_byte() {
    assert_eq!(decode(b"e"), Err(ParseError::UnexpectedByte(b'e')));
}

#[test]
fn truncated_integer_is_eof() {
    assert_eq!(decode(b"i42"), Err(ParseError::UnexpectedEOF));
}

#[test]
fn unterminated_list_is_eof() {
    assert_eq!(decode(b"l4:spam"), Err(ParseError::UnexpectedEOF));
}

#[test]
fn missing_colon_is_unexpected_byte() {
    assert_eq!(decode(b"4spam"), Err(ParseError::UnexpectedByte(b's')));
}

#[test]
fn length_with_leading_zero_is_invalid_length() {
    assert_eq!(decode(b"01:a"), Err(ParseError::InvalidLength));
}

#[test]
fn oversized_length_is_invalid_length() {
    assert_eq!(
        decode(b"99999999999999999999:x"),
        Err(ParseError::InvalidLength)
    );
}

#[test]
fn non_byte_string_key_is_invalid_format() {
    assert_eq!(decode(b"di1ei2ee"), Err(ParseError::InvalidFormat));
}

#[test]
fn key_without_value_is_unexpected_byte() {
    assert_eq!(decode(b"d3:cowe"), Err(ParseError::UnexpectedByte(b'e')));
}

#[test]
fn trailing_bytes_are_ignored() {
    assert_eq!(decode(b"i1exyz"), Ok(Some(Value::Integer(1))));
    assert!(parse_torrent_file(b"d3:cow3:mooetrailing").is_ok());
}

#[test]
fn nesting_at_the_limit_decodes() {
    let mut input = vec![b'l'; 1024];
    input.extend(vec![b'e'; 1024]);
    let mut expected = Value::List(vec![]);
    for _ in 0..1023 {
        expected = Value::List(vec![expected]);
    }
    assert_eq!(decode(&input), Ok(Some(expected)));
}

#[test]
fn nesting_beyond_the_limit_is_refused() {
    let mut input = vec![b'l'; 1025];
    input.extend(vec![b'e'; 1025]);
    assert_eq!(decode(&input), Err(ParseError::InvalidFormat));
    let mut dicts = Vec::new();
    for _ in 0..1025 {
        dicts.extend_from_slice(b"d1:k");
    }
    dicts.push(b'd');
    assert_eq!(decode(&dicts), Err(ParseError::InvalidFormat));
}
