//! The emitted bytes are plain MessagePack: an independent MessagePack
//! reader must agree about what they hold.

use admin_bridge::codec::payload_to_bytes;
use admin_bridge::payload::Payload;

fn key(s: &str) -> Vec<u8> {
    s.as_bytes().to_vec()
}

#[test]
fn foreign_reader_agrees_on_mapping() {
    let p = Payload::Dict(vec![(key("result"), Payload::Int(42))]);
    let bytes = payload_to_bytes(&p).unwrap();
    let read: serde_json::Value = rmp_serde::from_slice(&bytes).unwrap();
    let mut expected = serde_json::Map::new();
    expected.insert("result".to_string(), serde_json::Value::from(42i64));
    assert_eq!(read, serde_json::Value::Object(expected));
}

#[test]
fn foreign_writer_bytes_decode() {
    // The decode direction: bytes produced by an independent MessagePack
    // writer, in its own minimal-width forms, decode to the same values.
    let mut obj = serde_json::Map::new();
    obj.insert("result".to_string(), serde_json::Value::from(42i64));
    obj.insert("big".to_string(), serde_json::Value::from(u64::MAX));
    obj.insert("neg".to_string(), serde_json::Value::from(-5i64));
    obj.insert("name".to_string(), serde_json::Value::from("conductor"));
    obj.insert(
        "list".to_string(),
        serde_json::Value::Array(vec![
            serde_json::Value::Null,
            serde_json::Value::from(true),
        ]),
    );
    let bytes = rmp_serde::to_vec_named(&serde_json::Value::Object(obj)).unwrap();
    let (p, end) = admin_bridge::codec::decode_payload(&bytes, 0).unwrap();
    assert_eq!(end, bytes.len());
    // serde_json serializes object keys in sorted order.
    let expected = Payload::Dict(vec![
        (b"big".to_vec(), Payload::UInt(u64::MAX)),
        (b"list".to_vec(), Payload::Arr(vec![Payload::Nil, Payload::Bool(true)])),
        (b"name".to_vec(), Payload::Str(b"conductor".to_vec())),
        (b"neg".to_vec(), Payload::Int(-5)),
        (b"result".to_vec(), Payload::Int(42)),
    ]);
    assert_eq!(p, expected);
}

#[test]
fn foreign_reader_agrees_on_scalars() {
    let p = Payload::Arr(vec![
        Payload::Nil,
        Payload::Bool(true),
        Payload::Bool(false),
        Payload::Int(-123_456_789),
        Payload::Str(b"hello".to_vec()),
    ]);
    let bytes = payload_to_bytes(&p).unwrap();
    let read: serde_json::Value = rmp_serde::from_slice(&bytes).unwrap();
    let expected = serde_json::Value::Array(vec![
        serde_json::Value::Null,
        serde_json::Value::from(true),
        serde_json::Value::from(false),
        serde_json::Value::from(-123_456_789i64),
        serde_json::Value::from("hello"),
    ]);
    assert_eq!(read, expected);
}
