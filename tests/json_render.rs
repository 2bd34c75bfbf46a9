use bittorrent::bencode::{BencodeError, Value};
use bittorrent::json::{decode_bencoded_value, render_json, JsonError};

#[test]
fn decode_prints_string() {
    assert_eq!(decode_bencoded_value(b"5:hello"), Ok("\"hello\"".to_string()));
}

#[test]
fn decode_prints_integer() {
    assert_eq!(decode_bencoded_value(b"i42e"), Ok("42".to_string()));
    assert_eq!(decode_bencoded_value(b"i-42e"), Ok("-42".to_string()));
}

#[test]
fn decode_prints_list() {
    assert_eq!(decode_bencoded_value(b"l5:helloi42ee"), Ok("[\"hello\",42]".to_string()));
}

#[test]
fn decode_prints_dict() {
    assert_eq!(
        decode_bencoded_value(b"d3:foo3:bar5:helloi52ee"),
        Ok("{\"foo\":\"bar\",\"hello\":52}".to_string())
    );
    assert_eq!(decode_bencoded_value(b"de"), Ok("{}".to_string()));
    assert_eq!(decode_bencoded_value(b"le"), Ok("[]".to_string()));
}

#[test]
fn decode_rejects_invalid_bencode() {
    assert_eq!(
        decode_bencoded_value(b"i03e"),
        Err(JsonError::Bencode(BencodeError::BadInteger))
    );
}

#[test]
fn decode_rejects_invalid_utf8() {
    assert_eq!(decode_bencoded_value(b"2:\xff\xfe"), Err(JsonError::NotUtf8));
}

#[test]
fn strings_are_escaped() {
    let v = Value::Bytes(b"a\"b\\c\nd\x01".to_vec());
    assert_eq!(render_json(&v), Some("\"a\\\"b\\\\c\\nd\\u0001\"".to_string()));
    let v = Value::Bytes("é".as_bytes().to_vec());
    assert_eq!(render_json(&v), Some("\"é\"".to_string()));
}
