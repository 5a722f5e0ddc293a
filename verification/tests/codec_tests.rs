use admin_bridge::codec::{decode_payload, payload_to_bytes};
use admin_bridge::envelope::{decode_response, encode_request, encode_response, DecodeError, Frame};
use admin_bridge::payload::Payload;

fn str_payload(s: &str) -> Payload {
    Payload::Str(s.as_bytes().to_vec())
}

fn key(s: &str) -> Vec<u8> {
    s.as_bytes().to_vec()
}

fn sample_payload() -> Payload {
    Payload::Dict(vec![
        (key("method"), str_payload("ping")),
        (key("count"), Payload::Int(-7)),
        (key("flags"), Payload::Arr(vec![
            Payload::Bool(true),
            Payload::Bool(false),
            Payload::Nil,
        ])),
        (key("blob"), Payload::Bin(vec![0, 1, 254, 255])),
        (key("inner"), Payload::Dict(vec![(key("deep"), Payload::Int(9_007_199_254_740_993))])),
    ])
}

#[test]
fn int_payload_exact_bytes() {
    let bytes = payload_to_bytes(&Payload::Int(42)).unwrap();
    assert_eq!(bytes, vec![0xd3, 0, 0, 0, 0, 0, 0, 0, 42]);
    let bytes = payload_to_bytes(&Payload::Int(-1)).unwrap();
    assert_eq!(bytes, vec![0xd3, 255, 255, 255, 255, 255, 255, 255, 255]);
    let bytes = payload_to_bytes(&Payload::Int(0x0102_0304_0506_0708)).unwrap();
    assert_eq!(bytes, vec![0xd3, 1, 2, 3, 4, 5, 6, 7, 8]);
}

#[test]
fn scalar_payload_exact_bytes() {
    assert_eq!(payload_to_bytes(&Payload::Nil).unwrap(), vec![0xc0]);
    assert_eq!(payload_to_bytes(&Payload::Bool(false)).unwrap(), vec![0xc2]);
    assert_eq!(payload_to_bytes(&Payload::Bool(true)).unwrap(), vec![0xc3]);
    assert_eq!(
        payload_to_bytes(&str_payload("hi")).unwrap(),
        vec![0xdb, 0, 0, 0, 2, 104, 105]
    );
    assert_eq!(
        payload_to_bytes(&Payload::Bin(vec![7])).unwrap(),
        vec![0xc6, 0, 0, 0, 1, 7]
    );
}

#[test]
fn request_envelope_exact_bytes() {
    let bytes = encode_request(&Payload::Nil).unwrap();
    let expected: Vec<u8> = vec![
        0xdf, 0, 0, 0, 3, // a three-entry mapping
        0xdb, 0, 0, 0, 4, 116, 121, 112, 101, // "type"
        0xdb, 0, 0, 0, 7, 82, 101, 113, 117, 101, 115, 116, // "Request"
        0xdb, 0, 0, 0, 2, 105, 100, // "id"
        0xdb, 0, 0, 0, 0, // ""
        0xdb, 0, 0, 0, 4, 100, 97, 116, 97, // "data"
        0xc6, 0, 0, 0, 1, 0xc0, // the encoded nil payload
    ];
    assert_eq!(bytes, expected);
}

#[test]
fn payload_decode_round_trip() {
    let p = sample_payload();
    let bytes = payload_to_bytes(&p).unwrap();
    let (q, end) = decode_payload(&bytes, 0).unwrap();
    assert_eq!(end, bytes.len());
    assert_eq!(q, sample_payload());
}

#[test]
fn response_envelope_round_trip() {
    let p = sample_payload();
    let bytes = encode_response(&p).unwrap();
    let decoded = decode_response(&Frame::Binary(bytes)).unwrap();
    assert_eq!(decoded, sample_payload());
}

#[test]
fn response_round_trip_scalars() {
    for p in [
        Payload::Nil,
        Payload::Bool(true),
        Payload::Int(i64::MIN),
        Payload::Int(i64::MAX),
        str_payload(""),
        Payload::Arr(Vec::new()),
        Payload::Dict(Vec::new()),
    ] {
        let again = match &p {
            Payload::Nil => Payload::Nil,
            Payload::Bool(b) => Payload::Bool(*b),
            Payload::Int(i) => Payload::Int(*i),
            Payload::UInt(u) => Payload::UInt(*u),
            Payload::Str(s) => Payload::Str(s.clone()),
            Payload::Bin(b) => Payload::Bin(b.clone()),
            Payload::Arr(_) => Payload::Arr(Vec::new()),
            Payload::Dict(_) => Payload::Dict(Vec::new()),
        };
        let bytes = encode_response(&p).unwrap();
        assert_eq!(decode_response(&Frame::Binary(bytes)).unwrap(), again);
    }
}

#[test]
fn non_binary_frames_rejected() {
    let valid = encode_response(&Payload::Nil).unwrap();
    assert_eq!(
        decode_response(&Frame::Text(valid.clone())),
        Err(DecodeError::UnexpectedFrameKind)
    );
    assert_eq!(
        decode_response(&Frame::Ping(valid.clone())),
        Err(DecodeError::UnexpectedFrameKind)
    );
    assert_eq!(
        decode_response(&Frame::Pong(valid)),
        Err(DecodeError::UnexpectedFrameKind)
    );
    assert_eq!(decode_response(&Frame::Close), Err(DecodeError::UnexpectedFrameKind));
}

#[test]
fn request_variant_rejected() {
    let bytes = encode_request(&sample_payload()).unwrap();
    assert_eq!(
        decode_response(&Frame::Binary(bytes)),
        Err(DecodeError::UnexpectedVariant)
    );
}

#[test]
fn malformed_envelope_rejected() {
    assert_eq!(
        decode_response(&Frame::Binary(vec![1, 2, 3])),
        Err(DecodeError::EnvelopeDecodeFailure)
    );
    assert_eq!(
        decode_response(&Frame::Binary(Vec::new())),
        Err(DecodeError::EnvelopeDecodeFailure)
    );
    // A mapping that is not the envelope shape.
    let stray = payload_to_bytes(&Payload::Dict(vec![(key("type"), Payload::Int(1))])).unwrap();
    assert_eq!(
        decode_response(&Frame::Binary(stray)),
        Err(DecodeError::EnvelopeDecodeFailure)
    );
}

#[test]
fn malformed_payload_rejected() {
    // A well-formed response envelope whose data field holds one byte
    // that is no payload encoding.
    let mut bytes = encode_response(&Payload::Nil).unwrap();
    let last = bytes.len() - 1;
    bytes[last] = 0xc1;
    assert_eq!(
        decode_response(&Frame::Binary(bytes)),
        Err(DecodeError::PayloadDecodeFailure)
    );
}

#[test]
fn minimal_width_forms_decode() {
    // The decoder accepts everything an ordinary MessagePack writer may
    // emit, not only the wide forms this encoder uses.
    let cases: Vec<(Vec<u8>, Payload)> = vec![
        (vec![0x2a], Payload::Int(42)),
        (vec![0x00], Payload::Int(0)),
        (vec![0x7f], Payload::Int(127)),
        (vec![0xff], Payload::Int(-1)),
        (vec![0xe0], Payload::Int(-32)),
        (vec![0xcc, 200], Payload::Int(200)),
        (vec![0xcd, 1, 0], Payload::Int(256)),
        (vec![0xce, 0, 1, 0, 0], Payload::Int(65536)),
        (vec![0xcf, 0, 0, 0, 0, 0, 0, 0, 7], Payload::Int(7)),
        (
            vec![0xcf, 0xff, 0xff, 0xff, 0xff, 0xff, 0xff, 0xff, 0xff],
            Payload::UInt(u64::MAX),
        ),
        (vec![0xd0, 0xff], Payload::Int(-1)),
        (vec![0xd1, 0xff, 0x00], Payload::Int(-256)),
        (vec![0xd2, 0xff, 0xff, 0xff, 0x00], Payload::Int(-256)),
        (vec![0xa2, 104, 105], Payload::Str(b"hi".to_vec())),
        (vec![0xa0], Payload::Str(Vec::new())),
        (vec![0xd9, 2, 104, 105], Payload::Str(b"hi".to_vec())),
        (vec![0xda, 0, 2, 104, 105], Payload::Str(b"hi".to_vec())),
        (vec![0xc4, 1, 9], Payload::Bin(vec![9])),
        (vec![0xc5, 0, 1, 9], Payload::Bin(vec![9])),
        (vec![0x92, 0x01, 0xc3], Payload::Arr(vec![Payload::Int(1), Payload::Bool(true)])),
        (vec![0xdc, 0, 1, 0xc0], Payload::Arr(vec![Payload::Nil])),
        (
            vec![0x81, 0xa1, 107, 0x05],
            Payload::Dict(vec![(b"k".to_vec(), Payload::Int(5))]),
        ),
        (
            vec![0xde, 0, 1, 0xa1, 107, 0x05],
            Payload::Dict(vec![(b"k".to_vec(), Payload::Int(5))]),
        ),
    ];
    for (bytes, expected) in cases {
        let (p, end) = decode_payload(&bytes, 0).unwrap();
        assert_eq!(p, expected);
        assert_eq!(end, bytes.len());
    }
}

#[test]
fn float_and_extension_forms_rejected() {
    // Floating point and extension formats are outside the payload model.
    assert!(decode_payload(&vec![0xca, 0, 0, 0, 0], 0).is_none());
    assert!(decode_payload(&vec![0xcb, 0, 0, 0, 0, 0, 0, 0, 0], 0).is_none());
    assert!(decode_payload(&vec![0xc1], 0).is_none());
}

#[test]
fn large_unsigned_round_trip() {
    let p = Payload::UInt(u64::MAX);
    let bytes = payload_to_bytes(&p).unwrap();
    assert_eq!(bytes, vec![0xcf, 255, 255, 255, 255, 255, 255, 255, 255]);
    let (q, _) = decode_payload(&bytes, 0).unwrap();
    assert_eq!(q, Payload::UInt(u64::MAX));
}

#[test]
fn minimal_width_response_envelope_decodes() {
    // The exact reply shape a standard MessagePack writer produces for a
    // response envelope wrapping {"result": 42}: fixmap, fixstr keys and
    // variant, a bin8 data field holding a fixmap/fixstr/fixint payload.
    let mut bytes: Vec<u8> = vec![0x83];
    bytes.extend_from_slice(&[0xa4, 116, 121, 112, 101]); // "type"
    bytes.extend_from_slice(&[0xa8, 82, 101, 115, 112, 111, 110, 115, 101]); // "Response"
    bytes.extend_from_slice(&[0xa2, 105, 100]); // "id"
    bytes.push(0xa0); // ""
    bytes.extend_from_slice(&[0xa4, 100, 97, 116, 97]); // "data"
    let inner: Vec<u8> = vec![0x81, 0xa6, 114, 101, 115, 117, 108, 116, 0x2a]; // {"result": 42}
    bytes.push(0xc4);
    bytes.push(inner.len() as u8);
    bytes.extend_from_slice(&inner);
    let decoded = decode_response(&Frame::Binary(bytes)).unwrap();
    assert_eq!(decoded, Payload::Dict(vec![(b"result".to_vec(), Payload::Int(42))]));
}

#[test]
fn envelope_field_order_is_free() {
    // The same envelope with the fields reordered and one unknown field,
    // which a standard reader ignores.
    let mut bytes: Vec<u8> = vec![0x84];
    bytes.extend_from_slice(&[0xa4, 100, 97, 116, 97]); // "data"
    bytes.extend_from_slice(&[0xc4, 1, 0xc3]); // bin8 [true]
    bytes.extend_from_slice(&[0xa2, 105, 100]); // "id"
    bytes.push(0xa0); // ""
    bytes.extend_from_slice(&[0xa5, 101, 120, 116, 114, 97]); // "extra"
    bytes.push(0xc0); // nil
    bytes.extend_from_slice(&[0xa4, 116, 121, 112, 101]); // "type"
    bytes.extend_from_slice(&[0xa8, 82, 101, 115, 112, 111, 110, 115, 101]); // "Response"
    let decoded = decode_response(&Frame::Binary(bytes)).unwrap();
    assert_eq!(decoded, Payload::Bool(true));
}

#[test]
fn duplicate_envelope_field_rejected() {
    let mut bytes: Vec<u8> = vec![0x84];
    bytes.extend_from_slice(&[0xa4, 116, 121, 112, 101]); // "type"
    bytes.extend_from_slice(&[0xa8, 82, 101, 115, 112, 111, 110, 115, 101]); // "Response"
    bytes.extend_from_slice(&[0xa2, 105, 100]); // "id"
    bytes.push(0xa0);
    bytes.extend_from_slice(&[0xa2, 105, 100]); // "id" again
    bytes.push(0xa0);
    bytes.extend_from_slice(&[0xa4, 100, 97, 116, 97]); // "data"
    bytes.extend_from_slice(&[0xc4, 1, 0xc0]);
    assert_eq!(
        decode_response(&Frame::Binary(bytes)),
        Err(DecodeError::EnvelopeDecodeFailure)
    );
}

#[test]
fn trailing_bytes_ignored() {
    // As with the standard reader, bytes after the envelope are ignored.
    let mut bytes = encode_response(&Payload::Int(3)).unwrap();
    bytes.push(0);
    bytes.push(99);
    assert_eq!(decode_response(&Frame::Binary(bytes)), Ok(Payload::Int(3)));
}

#[test]
fn oversized_payload_refused() {
    // A sequence length that does not fit the 4-byte length field cannot
    // be built in memory here, but a too-large claimed length in the
    // bytes must not decode.
    let bytes = vec![0xdb, 0xff, 0xff, 0xff, 0xff, 1, 2, 3];
    assert!(decode_payload(&bytes, 0).is_none());
}
