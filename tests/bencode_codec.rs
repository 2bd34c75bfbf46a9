use bittorrent::bencode::{decode, decode_prefix, encode, BencodeError, Value};

fn round_trip(input: &[u8]) {
    let v = decode(input).expect("canonical input decodes");
    assert_eq!(encode(&v), input.to_vec());
}

#[test]
fn round_trips_canonical_inputs() {
    round_trip(b"5:hello");
    round_trip(b"0:");
    round_trip(b"i42e");
    round_trip(b"i0e");
    round_trip(b"i-17e");
    round_trip(b"i-9223372036854775808e");
    round_trip(b"i9223372036854775807e");
    round_trip(b"l5:helloi42ee");
    round_trip(b"le");
    round_trip(b"de");
    round_trip(b"d1:a0:1:b0:e");
    round_trip(b"d3:bar4:spam3:fooi42e4:listl1:xli1eeee");
}

#[test]
fn decodes_to_expected_values() {
    assert_eq!(decode(b"5:hello"), Ok(Value::Bytes(b"hello".to_vec())));
    assert_eq!(decode(b"i-3e"), Ok(Value::Int(-3)));
    assert_eq!(
        decode(b"l5:helloi42ee"),
        Ok(Value::List(vec![Value::Bytes(b"hello".to_vec()), Value::Int(42)]))
    );
    assert_eq!(
        decode(b"d1:ai1e1:bli2eee"),
        Ok(Value::Dict(vec![
            (b"a".to_vec(), Value::Int(1)),
            (b"b".to_vec(), Value::List(vec![Value::Int(2)])),
        ]))
    );
}

#[test]
fn rejects_negative_zero() {
    assert_eq!(decode(b"i-0e"), Err(BencodeError::BadInteger));
}

#[test]
fn rejects_leading_zero() {
    assert_eq!(decode(b"i03e"), Err(BencodeError::BadInteger));
    assert!(decode(b"03:abc").is_err());
}

#[test]
fn rejects_empty_integer() {
    assert!(decode(b"i e").is_err());
    assert_eq!(decode(b"ie"), Err(BencodeError::BadInteger));
    assert_eq!(decode(b"i-e"), Err(BencodeError::BadInteger));
}

#[test]
fn rejects_integer_overflow() {
    assert_eq!(decode(b"i9223372036854775808e"), Err(BencodeError::BadInteger));
    assert_eq!(decode(b"i-9223372036854775809e"), Err(BencodeError::BadInteger));
}

#[test]
fn rejects_out_of_order_keys() {
    assert_eq!(decode(b"d1:b0:1:a0:e"), Err(BencodeError::UnsortedKeys));
}

#[test]
fn rejects_duplicate_keys() {
    assert_eq!(decode(b"d1:a0:1:a0:e"), Err(BencodeError::UnsortedKeys));
}

#[test]
fn rejects_non_string_key() {
    assert_eq!(decode(b"di1ei2ee"), Err(BencodeError::NonStringKey));
}

#[test]
fn rejects_truncated_input() {
    assert_eq!(decode(b""), Err(BencodeError::UnexpectedEnd));
    assert_eq!(decode(b"l5:hello"), Err(BencodeError::UnexpectedEnd));
    assert_eq!(decode(b"5:hel"), Err(BencodeError::BadLength));
    assert_eq!(decode(b"i42"), Err(BencodeError::UnexpectedEnd));
}

#[test]
fn rejects_unexpected_byte() {
    assert_eq!(decode(b"x"), Err(BencodeError::UnexpectedByte));
    assert_eq!(decode(b"le5"), Err(BencodeError::TrailingData));
}

#[test]
fn rejects_trailing_data() {
    assert_eq!(decode(b"i1ei2e"), Err(BencodeError::TrailingData));
}

#[test]
fn prefix_reports_bytes_consumed() {
    let (v, n) = decode_prefix(b"4:spamtail").unwrap();
    assert_eq!(v, Value::Bytes(b"spam".to_vec()));
    assert_eq!(n, 6);
}

#[test]
fn encodes_values_canonically() {
    let v = Value::Dict(vec![
        (b"cow".to_vec(), Value::Bytes(b"moo".to_vec())),
        (b"spam".to_vec(), Value::List(vec![Value::Int(-1), Value::Bytes(Vec::new())])),
    ]);
    assert_eq!(encode(&v), b"d3:cow3:moo4:spamli-1e0:ee".to_vec());
}
