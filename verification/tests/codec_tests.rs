//! Tests of the record codec: round trips, exact error behaviour, and the
//! self-delimiting property the replay depends on.

use kvs::codec::{decode_one, encode, Record};
use kvs::KvError;

#[test]
fn round_trip_put() {
    let rec = Record::Put { key: String::from("key1"), value: String::from("value1") };
    let bytes = encode(&rec);
    let (back, n) = decode_one(&bytes, 0).unwrap();
    assert_eq!(back, rec);
    assert_eq!(n, bytes.len());
}

#[test]
fn round_trip_delete() {
    let rec = Record::Delete { key: String::from("key1") };
    let bytes = encode(&rec);
    let (back, n) = decode_one(&bytes, 0).unwrap();
    assert_eq!(back, rec);
    assert_eq!(n, bytes.len());
}

#[test]
fn round_trip_non_ascii() {
    let rec = Record::Put { key: String::from("clé"), value: String::from("值段") };
    let bytes = encode(&rec);
    let (back, n) = decode_one(&bytes, 0).unwrap();
    assert_eq!(back, rec);
    assert_eq!(n, bytes.len());
}

#[test]
fn round_trip_empty_strings() {
    let rec = Record::Put { key: String::from(""), value: String::from("") };
    let bytes = encode(&rec);
    let (back, n) = decode_one(&bytes, 0).unwrap();
    assert_eq!(back, rec);
    assert_eq!(n, bytes.len());
}

#[test]
fn decode_is_self_delimiting() {
    // two records back to back: each decodes at its own offset, ignoring the rest
    let first = Record::Put { key: String::from("a"), value: String::from("1") };
    let second = Record::Delete { key: String::from("a") };
    let mut bytes = encode(&first);
    let boundary = bytes.len();
    bytes.extend_from_slice(&encode(&second));
    let (r1, n1) = decode_one(&bytes, 0).unwrap();
    assert_eq!(r1, first);
    assert_eq!(n1, boundary);
    let (r2, n2) = decode_one(&bytes, boundary).unwrap();
    assert_eq!(r2, second);
    assert_eq!(boundary + n2, bytes.len());
}

#[test]
fn decode_truncated_is_corrupt() {
    let rec = Record::Put { key: String::from("key1"), value: String::from("value1") };
    let bytes = encode(&rec);
    let cut: Vec<u8> = bytes[..bytes.len() - 1].to_vec();
    assert_eq!(decode_one(&cut, 0), Err(KvError::CorruptRecord));
}

#[test]
fn decode_bad_tag_is_corrupt() {
    let rec = Record::Delete { key: String::from("k") };
    let mut bytes = encode(&rec);
    bytes[0] = 0x7f;
    assert_eq!(decode_one(&bytes, 0), Err(KvError::CorruptRecord));
}

#[test]
fn decode_invalid_utf8_is_corrupt() {
    let rec = Record::Delete { key: String::from("ab") };
    let mut bytes = encode(&rec);
    let last = bytes.len() - 1;
    bytes[last] = 0xff;
    assert_eq!(decode_one(&bytes, 0), Err(KvError::CorruptRecord));
}

#[test]
fn decode_empty_is_corrupt() {
    assert_eq!(decode_one(&Vec::new(), 0), Err(KvError::CorruptRecord));
}
