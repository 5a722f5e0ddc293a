//! The wire envelope around each exchanged payload.
//!
//! Every frame sent or received carries one envelope: a three-entry
//! mapping with a variant field (`"type"`, either `"Request"` or
//! `"Response"`), a correlation field (`"id"`, emitted empty and never
//! checked on receipt), and a binary field (`"data"`) holding the
//! encoded payload.  [`encode_request`] builds the outbound bytes;
//! [`decode_response`] validates an inbound frame step by step, with one
//! distinct error for each step that can fail.  The decoder takes the
//! envelope as a standard reader would: the three fields in any order
//! and in any width, other fields ignored, a repeated field malformed,
//! and, as the protocol asks, the id never checked.

use vstd::prelude::*;
use crate::payload::{Payload, PayloadV, wf, payload_wf, deep_entries};
use crate::codec::{enc, dec, encode_payload, decode_payload, lemma_dec_enc};

verus! {

broadcast use vstd::std_specs::vec::group_vec_axioms;

/// A transport frame as the socket delivers it.
#[derive(Debug, PartialEq, Eq)]
pub enum Frame {
    Binary(Vec<u8>),
    Text(Vec<u8>),
    Ping(Vec<u8>),
    Pong(Vec<u8>),
    Close,
}

/// The mathematical model of a [`Frame`].
pub enum FrameV {
    Binary(Seq<u8>),
    Text(Seq<u8>),
    Ping(Seq<u8>),
    Pong(Seq<u8>),
    Close,
}

impl View for Frame {
    type V = FrameV;

    open spec fn view(&self) -> FrameV {
        match self {
            Frame::Binary(b) => FrameV::Binary(b@),
            Frame::Text(b) => FrameV::Text(b@),
            Frame::Ping(b) => FrameV::Ping(b@),
            Frame::Pong(b) => FrameV::Pong(b@),
            Frame::Close => FrameV::Close,
        }
    }
}

/// Why an inbound frame was rejected, one variant per validation step.
#[derive(Debug, Clone, Copy, PartialEq, Eq, Structural)]
pub enum DecodeError {
    /// The frame was not a binary frame.
    UnexpectedFrameKind,
    /// The frame's bytes did not hold a single well-shaped envelope.
    EnvelopeDecodeFailure,
    /// The envelope was a request, not a response.
    UnexpectedVariant,
    /// The envelope's data field did not hold a single payload.
    PayloadDecodeFailure,
}

/// The bytes of the `"type"` key.
pub open spec fn key_type() -> Seq<u8> {
    seq![116u8, 121u8, 112u8, 101u8]
}

/// The bytes of the `"id"` key.
pub open spec fn key_id() -> Seq<u8> {
    seq![105u8, 100u8]
}

/// The bytes of the `"data"` key.
pub open spec fn key_data() -> Seq<u8> {
    seq![100u8, 97u8, 116u8, 97u8]
}

/// The bytes of the `"Request"` variant name.
pub open spec fn tag_request() -> Seq<u8> {
    seq![82u8, 101u8, 113u8, 117u8, 101u8, 115u8, 116u8]
}

/// The bytes of the `"Response"` variant name.
pub open spec fn tag_response() -> Seq<u8> {
    seq![82u8, 101u8, 115u8, 112u8, 111u8, 110u8, 115u8, 101u8]
}

/// An envelope as a payload value: the three-entry mapping.
pub open spec fn envelope_value(variant: Seq<u8>, id: Seq<u8>, data: Seq<u8>) -> PayloadV {
    PayloadV::Dict(
        seq![
            (key_type(), PayloadV::Str(variant)),
            (key_id(), PayloadV::Str(id)),
            (key_data(), PayloadV::Bin(data)),
        ],
    )
}

/// A payload this client can send: well formed, with an encoding short
/// enough for the envelope's binary data field.
pub open spec fn encodable(p: PayloadV) -> bool {
    wf(p) && enc(p).len() < 0x1_0000_0000
}

/// The bytes of a request envelope wrapping `p`, with an empty id.
pub open spec fn request_bytes(p: PayloadV) -> Seq<u8> {
    enc(envelope_value(tag_request(), Seq::empty(), enc(p)))
}

/// The bytes of a response envelope wrapping `p`, with an empty id.
pub open spec fn response_bytes(p: PayloadV) -> Seq<u8> {
    enc(envelope_value(tag_response(), Seq::empty(), enc(p)))
}

/// An envelope value with well-formed keys and fields.
pub open spec fn envelope_wf(variant: Seq<u8>, id: Seq<u8>, data: Seq<u8>) -> bool {
    variant.len() < 0x1_0000_0000 && id.len() < 0x1_0000_0000 && data.len() < 0x1_0000_0000
}

/// A well-formed envelope is a well-formed payload value.
pub proof fn lemma_envelope_wf(variant: Seq<u8>, id: Seq<u8>, data: Seq<u8>)
    requires
        envelope_wf(variant, id, data),
    ensures
        wf(envelope_value(variant, id, data)),
{
    let entries = envelope_value(variant, id, data)->Dict_0;
    assert forall|i: int| 0 <= i < entries.len() implies (#[trigger] entries[i]).0.len()
        < 0x1_0000_0000 && wf(entries[i].1) by {
        if i == 0 {
            assert(entries[0] == (key_type(), PayloadV::Str(variant)));
        } else if i == 1 {
            assert(entries[1] == (key_id(), PayloadV::Str(id)));
        } else {
            assert(entries[2] == (key_data(), PayloadV::Bin(data)));
        }
    }
}

/// Whether two byte vectors hold the same bytes.
pub fn bytes_eq(a: &Vec<u8>, b: &Vec<u8>) -> (r: bool)
    ensures
        r == (a@ == b@),
{
    if a.len() != b.len() {
        return false;
    }
    let mut i: usize = 0;
    while i < a.len()
        invariant
            0 <= i <= a@.len(),
            a@.len() == b@.len(),
            forall|j: int| 0 <= j < i ==> a@[j] == b@[j],
        decreases a@.len() - i,
    {
        if a[i] != b[i] {
            return false;
        }
        i += 1;
    }
    proof {
        assert(a@ =~= b@);
    }
    true
}

/// Builds the encoded envelope around already-encoded payload bytes.
fn build_envelope(variant: Vec<u8>, data: Vec<u8>) -> (r: Vec<u8>)
    requires
        variant@.len() < 0x1_0000_0000,
        data@.len() < 0x1_0000_0000,
    ensures
        r@ == enc(envelope_value(variant@, Seq::empty(), data@)),
{
    let ghost variant_bytes = variant@;
    let ghost data_bytes = data@;
    let mut entries: Vec<(Vec<u8>, Payload)> = Vec::new();
    let key_t: Vec<u8> = vec![116u8, 121u8, 112u8, 101u8];
    let key_i: Vec<u8> = vec![105u8, 100u8];
    let key_d: Vec<u8> = vec![100u8, 97u8, 116u8, 97u8];
    let empty_id: Vec<u8> = Vec::new();
    proof {
        assert(key_t@ =~= key_type());
        assert(key_i@ =~= key_id());
        assert(key_d@ =~= key_data());
        assert(empty_id@ =~= Seq::<u8>::empty());
    }
    entries.push((key_t, Payload::Str(variant)));
    entries.push((key_i, Payload::Str(empty_id)));
    entries.push((key_d, Payload::Bin(data)));
    let env = Payload::Dict(entries);
    proof {
        let ghost dents = deep_entries(entries@);
        assert(entries@.len() == 3);
        assert(dents[0] == (entries@[0].0@, entries@[0].1.deep()));
        assert(dents[1] == (entries@[1].0@, entries@[1].1.deep()));
        assert(dents[2] == (entries@[2].0@, entries@[2].1.deep()));
        assert(dents[0] == (key_type(), PayloadV::Str(variant_bytes)));
        assert(dents[1] == (key_id(), PayloadV::Str(Seq::<u8>::empty())));
        assert(dents[2] == (key_data(), PayloadV::Bin(data_bytes)));
        assert(dents =~= envelope_value(variant_bytes, Seq::empty(), data_bytes)->Dict_0);
        assert(env@ == envelope_value(variant_bytes, Seq::empty(), data_bytes));
        lemma_envelope_wf(variant_bytes, Seq::empty(), data_bytes);
    }
    let mut out: Vec<u8> = Vec::new();
    encode_payload(&env, &mut out);
    out
}

/// Encodes `p` and wraps it in a request envelope with an empty id.
///
/// Every payload within the supported model encodes; `None` comes only
/// of a payload outside it, which a caller treats as a contract
/// violation rather than a runtime failure.
pub fn encode_request(p: &Payload) -> (r: Option<Vec<u8>>)
    ensures
        match r {
            Some(bytes) => encodable(p@) && bytes@ == request_bytes(p@),
            None => !encodable(p@),
        },
{
    if !payload_wf(p) {
        return None;
    }
    let mut inner: Vec<u8> = Vec::new();
    encode_payload(p, &mut inner);
    if (inner.len() as u64) >= 0x1_0000_0000u64 {
        return None;
    }
    let variant: Vec<u8> = vec![82u8, 101u8, 113u8, 117u8, 101u8, 115u8, 116u8];
    proof {
        assert(variant@ =~= tag_request());
    }
    Some(build_envelope(variant, inner))
}

/// Encodes `p` and wraps it in a response envelope with an empty id, as
/// the remote peer does when it answers.
pub fn encode_response(p: &Payload) -> (r: Option<Vec<u8>>)
    ensures
        match r {
            Some(bytes) => encodable(p@) && bytes@ == response_bytes(p@),
            None => !encodable(p@),
        },
{
    if !payload_wf(p) {
        return None;
    }
    let mut inner: Vec<u8> = Vec::new();
    encode_payload(p, &mut inner);
    if (inner.len() as u64) >= 0x1_0000_0000u64 {
        return None;
    }
    let variant: Vec<u8> = vec![82u8, 101u8, 115u8, 112u8, 111u8, 110u8, 115u8, 101u8];
    proof {
        assert(variant@ =~= tag_response());
    }
    Some(build_envelope(variant, inner))
}

/// How often `k` occurs among the entry keys.
pub open spec fn key_count(entries: Seq<(Seq<u8>, PayloadV)>, k: Seq<u8>) -> int
    decreases entries.len(),
{
    if entries.len() == 0 {
        0
    } else {
        (if entries[0].0 == k {
            1int
        } else {
            0int
        }) + key_count(entries.drop_first(), k)
    }
}

/// The value under the first occurrence of `k`.
pub open spec fn key_value(entries: Seq<(Seq<u8>, PayloadV)>, k: Seq<u8>) -> PayloadV
    decreases entries.len(),
{
    if entries.len() == 0 {
        PayloadV::Nil
    } else if entries[0].0 == k {
        entries[0].1
    } else {
        key_value(entries.drop_first(), k)
    }
}

/// An occurrence of a key makes its count at least one.
proof fn lemma_key_count_at_least_one(entries: Seq<(Seq<u8>, PayloadV)>, k: Seq<u8>, j: int)
    requires
        0 <= j < entries.len(),
        entries[j].0 == k,
    ensures
        key_count(entries, k) >= 1,
    decreases entries.len(),
{
    lemma_key_count_nonneg(entries.drop_first(), k);
    if j > 0 {
        lemma_key_count_at_least_one(entries.drop_first(), k, j - 1);
    }
}

/// A key's count is never negative.
proof fn lemma_key_count_nonneg(entries: Seq<(Seq<u8>, PayloadV)>, k: Seq<u8>)
    ensures
        key_count(entries, k) >= 0,
    decreases entries.len(),
{
    if entries.len() != 0 {
        lemma_key_count_nonneg(entries.drop_first(), k);
    }
}

/// With a unique key, any occurrence carries the key's value.
proof fn lemma_key_value_unique(entries: Seq<(Seq<u8>, PayloadV)>, k: Seq<u8>, j: int)
    requires
        key_count(entries, k) == 1,
        0 <= j < entries.len(),
        entries[j].0 == k,
    ensures
        entries[j].1 == key_value(entries, k),
    decreases entries.len(),
{
    if j > 0 {
        if entries[0].0 == k {
            lemma_key_count_at_least_one(entries.drop_first(), k, j - 1);
        } else {
            lemma_key_value_unique(entries.drop_first(), k, j - 1);
        }
    }
}

/// The shape a decoded envelope must have: a mapping holding the
/// variant, id and data fields once each - in any order, with any other
/// fields ignored - with string variant and id fields and a binary data
/// field.
pub open spec fn envelope_shape_ok(env: PayloadV) -> bool {
    &&& env is Dict
    &&& key_count(env->Dict_0, key_type()) == 1
    &&& key_value(env->Dict_0, key_type()) is Str
    &&& key_count(env->Dict_0, key_id()) == 1
    &&& key_value(env->Dict_0, key_id()) is Str
    &&& key_count(env->Dict_0, key_data()) == 1
    &&& key_value(env->Dict_0, key_data()) is Bin
}

/// The variant name a well-shaped envelope carries.
pub open spec fn variant_of(env: PayloadV) -> Seq<u8> {
    key_value(env->Dict_0, key_type())->Str_0
}

/// The payload bytes a well-shaped envelope carries.
pub open spec fn data_of(env: PayloadV) -> Seq<u8> {
    key_value(env->Dict_0, key_data())->Bin_0
}

/// What a decoded envelope value means: the shape check, the variant
/// check, and the decoding of the inner data bytes, each failure with
/// its own error.
pub open spec fn interp_envelope(env: PayloadV) -> Result<PayloadV, DecodeError> {
    if !envelope_shape_ok(env) {
        Err(DecodeError::EnvelopeDecodeFailure)
    } else if variant_of(env) == tag_request() {
        Err(DecodeError::UnexpectedVariant)
    } else if variant_of(env) != tag_response() {
        Err(DecodeError::EnvelopeDecodeFailure)
    } else {
        match dec(data_of(env), 0) {
            None => Err(DecodeError::PayloadDecodeFailure),
            Some((p, _)) => Ok(p),
        }
    }
}

/// What decoding the bytes of a binary frame yields.  As the standard
/// reader the peer is matched against, this ignores bytes after the
/// envelope and after the inner payload.
pub open spec fn spec_decode_envelope(bytes: Seq<u8>) -> Result<PayloadV, DecodeError> {
    match dec(bytes, 0) {
        None => Err(DecodeError::EnvelopeDecodeFailure),
        Some((env, _)) => interp_envelope(env),
    }
}

/// What decoding a frame yields: only binary frames are accepted.
pub open spec fn spec_decode_response(f: FrameV) -> Result<PayloadV, DecodeError> {
    match f {
        FrameV::Binary(bytes) => spec_decode_envelope(bytes),
        _ => Err(DecodeError::UnexpectedFrameKind),
    }
}

/// The model of a decode result.
pub open spec fn res_view(r: Result<Payload, DecodeError>) -> Result<PayloadV, DecodeError> {
    match r {
        Ok(p) => Ok(p.deep()),
        Err(e) => Err(e),
    }
}

/// The three field names differ pairwise.
proof fn lemma_keys_distinct()
    ensures
        key_type() != key_id(),
        key_type() != key_data(),
        key_id() != key_data(),
{
    assert(key_type()[0] == 116u8 && key_data()[0] == 100u8);
}

/// Decodes an inbound frame, exactly as [`spec_decode_response`] says:
/// rejecting non-binary frames, malformed or request-tagged envelopes,
/// and malformed payload bytes, each with its own error.  The id field
/// is accepted unchecked.
#[verifier::rlimit(60)]
pub fn decode_response(frame: &Frame) -> (r: Result<Payload, DecodeError>)
    ensures
        res_view(r) == spec_decode_response(frame@),
{
    let bytes = match frame {
        Frame::Binary(b) => b,
        _ => {
            return Err(DecodeError::UnexpectedFrameKind);
        },
    };
    let (env, _end) = match decode_payload(bytes, 0) {
        Some(t) => t,
        None => {
            return Err(DecodeError::EnvelopeDecodeFailure);
        },
    };
    let ghost envv = env@;
    let mut entries = match env {
        Payload::Dict(entries) => entries,
        _ => {
            return Err(DecodeError::EnvelopeDecodeFailure);
        },
    };
    let ghost orig = entries@;
    let ghost ents = deep_entries(orig);
    let total = entries.len();
    let key_t: Vec<u8> = vec![116u8, 121u8, 112u8, 101u8];
    let key_i: Vec<u8> = vec![105u8, 100u8];
    let key_d: Vec<u8> = vec![100u8, 97u8, 116u8, 97u8];
    proof {
        assert(key_t@ =~= key_type());
        assert(key_i@ =~= key_id());
        assert(key_d@ =~= key_data());
        lemma_keys_distinct();
        assert(ents.skip(ents.len() as int) =~= Seq::<(Seq<u8>, PayloadV)>::empty());
    }
    let mut type_val: Option<Payload> = None;
    let mut type_count: usize = 0;
    let mut id_val: Option<Payload> = None;
    let mut id_count: usize = 0;
    let mut data_val: Option<Payload> = None;
    let mut data_count: usize = 0;
    while entries.len() > 0
        invariant
            envv == PayloadV::Dict(ents),
            ents == deep_entries(orig),
            ents.len() == orig.len() == total,
            entries@ == orig.take(entries@.len() as int),
            entries@.len() <= total,
            key_t@ == key_type(),
            key_i@ == key_id(),
            key_d@ == key_data(),
            type_count as int <= total - entries@.len(),
            id_count as int <= total - entries@.len(),
            data_count as int <= total - entries@.len(),
            type_count as int == key_count(ents.skip(entries@.len() as int), key_type()),
            id_count as int == key_count(ents.skip(entries@.len() as int), key_id()),
            data_count as int == key_count(ents.skip(entries@.len() as int), key_data()),
            type_val is Some <==> type_count >= 1,
            id_val is Some <==> id_count >= 1,
            data_val is Some <==> data_count >= 1,
            type_val matches Some(v) ==> exists|j: int|
                0 <= j < ents.len() && (#[trigger] ents[j]) == (key_type(), v.deep()),
            id_val matches Some(v) ==> exists|j: int|
                0 <= j < ents.len() && (#[trigger] ents[j]) == (key_id(), v.deep()),
            data_val matches Some(v) ==> exists|j: int|
                0 <= j < ents.len() && (#[trigger] ents[j]) == (key_data(), v.deep()),
        decreases entries@.len(),
    {
        let ghost m = entries@.len() as int;
        let (k, v) = entries.pop().unwrap();
        proof {
            lemma_keys_distinct();
            assert(entries@ =~= orig.take(m - 1));
            assert(k == orig[m - 1].0 && v == orig[m - 1].1);
            assert(ents[m - 1] == (k@, v.deep()));
            assert(ents.skip(m - 1) =~= seq![ents[m - 1]] + ents.skip(m));
            assert((seq![ents[m - 1]] + ents.skip(m)).drop_first() =~= ents.skip(m));
            assert((seq![ents[m - 1]] + ents.skip(m))[0] == ents[m - 1]);
        }
        if bytes_eq(&k, &key_t) {
            type_count = type_count + 1;
            if type_val.is_none() {
                type_val = Some(v);
            }
            proof {
                assert(ents[m - 1] == (key_type(), ents[m - 1].1));
            }
        } else if bytes_eq(&k, &key_i) {
            id_count = id_count + 1;
            if id_val.is_none() {
                id_val = Some(v);
            }
        } else if bytes_eq(&k, &key_d) {
            data_count = data_count + 1;
            if data_val.is_none() {
                data_val = Some(v);
            }
        }
    }
    proof {
        assert(ents.skip(0) =~= ents);
    }
    if type_count != 1 || id_count != 1 || data_count != 1 {
        return Err(DecodeError::EnvelopeDecodeFailure);
    }
    let tv = type_val.unwrap();
    let iv = id_val.unwrap();
    let dv = data_val.unwrap();
    proof {
        let j = choose|j: int| 0 <= j < ents.len() && (#[trigger] ents[j]) == (key_type(), tv.deep());
        lemma_key_value_unique(ents, key_type(), j);
        let j = choose|j: int| 0 <= j < ents.len() && (#[trigger] ents[j]) == (key_id(), iv.deep());
        lemma_key_value_unique(ents, key_id(), j);
        let j = choose|j: int| 0 <= j < ents.len() && (#[trigger] ents[j]) == (key_data(), dv.deep());
        lemma_key_value_unique(ents, key_data(), j);
        assert(key_value(ents, key_type()) == tv.deep());
        assert(key_value(ents, key_id()) == iv.deep());
        assert(key_value(ents, key_data()) == dv.deep());
    }
    let variant = match tv {
        Payload::Str(v) => v,
        _ => {
            return Err(DecodeError::EnvelopeDecodeFailure);
        },
    };
    match iv {
        Payload::Str(_) => {},
        _ => {
            return Err(DecodeError::EnvelopeDecodeFailure);
        },
    }
    let data = match dv {
        Payload::Bin(d) => d,
        _ => {
            return Err(DecodeError::EnvelopeDecodeFailure);
        },
    };
    let tag_req: Vec<u8> = vec![82u8, 101u8, 113u8, 117u8, 101u8, 115u8, 116u8];
    let tag_res: Vec<u8> = vec![82u8, 101u8, 115u8, 112u8, 111u8, 110u8, 115u8, 101u8];
    proof {
        assert(tag_req@ =~= tag_request());
        assert(tag_res@ =~= tag_response());
        assert(envelope_shape_ok(envv));
        assert(variant_of(envv) == variant@);
        assert(data_of(envv) == data@);
    }
    if bytes_eq(&variant, &tag_req) {
        return Err(DecodeError::UnexpectedVariant);
    }
    if !bytes_eq(&variant, &tag_res) {
        return Err(DecodeError::EnvelopeDecodeFailure);
    }
    match decode_payload(&data, 0) {
        Some((payload, _)) => Ok(payload),
        None => Err(DecodeError::PayloadDecodeFailure),
    }
}

/// The shape check holds of every envelope value, which carries exactly
/// the variant and data it was built around.
proof fn lemma_envelope_shape(variant: Seq<u8>, id: Seq<u8>, data: Seq<u8>)
    ensures
        envelope_shape_ok(envelope_value(variant, id, data)),
        variant_of(envelope_value(variant, id, data)) == variant,
        data_of(envelope_value(variant, id, data)) == data,
{
    let env = envelope_value(variant, id, data);
    let entries = env->Dict_0;
    lemma_keys_distinct();
    assert(entries.len() == 3);
    assert(entries[0] == (key_type(), PayloadV::Str(variant)));
    assert(entries[1] == (key_id(), PayloadV::Str(id)));
    assert(entries[2] == (key_data(), PayloadV::Bin(data)));
    let rest1 = entries.drop_first();
    let rest2 = rest1.drop_first();
    let rest3 = rest2.drop_first();
    assert(rest1 =~= seq![(key_id(), PayloadV::Str(id)), (key_data(), PayloadV::Bin(data))]);
    assert(rest2 =~= seq![(key_data(), PayloadV::Bin(data))]);
    assert(rest3 =~= Seq::<(Seq<u8>, PayloadV)>::empty());
    assert(key_count(rest3, key_type()) == 0 && key_count(rest3, key_id()) == 0 && key_count(
        rest3,
        key_data(),
    ) == 0);
    assert(key_count(rest2, key_type()) == 0 && key_count(rest2, key_id()) == 0 && key_count(
        rest2,
        key_data(),
    ) == 1);
    assert(key_count(rest1, key_type()) == 0 && key_count(rest1, key_id()) == 1 && key_count(
        rest1,
        key_data(),
    ) == 1);
    assert(key_count(entries, key_type()) == 1);
    assert(key_count(entries, key_id()) == 1);
    assert(key_count(entries, key_data()) == 1);
    assert(key_value(rest2, key_data()) == PayloadV::Bin(data));
    assert(key_value(rest1, key_id()) == PayloadV::Str(id));
    assert(key_value(rest1, key_data()) == PayloadV::Bin(data));
    assert(key_value(entries, key_type()) == PayloadV::Str(variant));
    assert(key_value(entries, key_id()) == PayloadV::Str(id));
    assert(key_value(entries, key_data()) == PayloadV::Bin(data));
}

/// An encoded envelope decodes back to itself, whole and well shaped.
#[verifier::rlimit(100)]
#[verifier::spinoff_prover]
proof fn lemma_envelope_decode(variant: Seq<u8>, id: Seq<u8>, data: Seq<u8>)
    requires
        envelope_wf(variant, id, data),
    ensures
        ({
            let env = envelope_value(variant, id, data);
            dec(enc(env), 0) == Some((env, enc(env).len() as int)) && envelope_shape_ok(env)
                && variant_of(env) == variant && data_of(env) == data
        }),
{
    let env = envelope_value(variant, id, data);
    lemma_envelope_wf(variant, id, data);
    lemma_envelope_shape(variant, id, data);
    let bytes = enc(env);
    assert(bytes.subrange(0, enc(env).len() as int) =~= enc(env));
    lemma_dec_enc(bytes, 0, env);
}

/// A response envelope around any data bytes decodes to whatever the
/// data bytes themselves decode to.
#[verifier::rlimit(100)]
#[verifier::spinoff_prover]
proof fn lemma_response_envelope_interp(data: Seq<u8>)
    requires
        dec(data, 0) is Some,
    ensures
        interp_envelope(envelope_value(tag_response(), Seq::empty(), data)) == Ok::<
            PayloadV,
            DecodeError,
        >(dec(data, 0)->Some_0.0),
{
    let env = envelope_value(tag_response(), Seq::empty(), data);
    lemma_envelope_shape(tag_response(), Seq::empty(), data);
    assert(tag_response() != tag_request()) by {
        assert(tag_response().len() == 8 && tag_request().len() == 7);
    }
}

/// Round trip: the bytes of a response envelope wrapping any payload of
/// the supported model, delivered as a binary frame, decode back to
/// exactly that payload.
#[verifier::rlimit(100)]
#[verifier::spinoff_prover]
pub proof fn lemma_response_round_trip(p: PayloadV)
    requires
        encodable(p),
    ensures
        spec_decode_response(FrameV::Binary(response_bytes(p))) == Ok::<PayloadV, DecodeError>(p),
{
    let env = envelope_value(tag_response(), Seq::empty(), enc(p));
    assert(dec(response_bytes(p), 0) == Some((env, response_bytes(p).len() as int))) by {
        lemma_envelope_decode(tag_response(), Seq::empty(), enc(p));
    }
    assert(dec(enc(p), 0) == Some((p, enc(p).len() as int))) by {
        assert(enc(p).subrange(0, enc(p).len() as int) =~= enc(p));
        lemma_dec_enc(enc(p), 0, p);
    }
    lemma_response_envelope_interp(enc(p));
}

/// Every non-binary frame kind is rejected as an unexpected frame kind.
pub proof fn lemma_non_binary_rejected(f: FrameV)
    requires
        !(f is Binary),
    ensures
        spec_decode_response(f) == Err::<PayloadV, DecodeError>(DecodeError::UnexpectedFrameKind),
{
}

/// A well-formed but request-tagged envelope is rejected as an
/// unexpected variant, whatever id and data it carries.
#[verifier::rlimit(100)]
#[verifier::spinoff_prover]
pub proof fn lemma_request_variant_rejected(id: Seq<u8>, data: Seq<u8>)
    requires
        envelope_wf(tag_request(), id, data),
    ensures
        spec_decode_response(FrameV::Binary(enc(envelope_value(tag_request(), id, data))))
            == Err::<PayloadV, DecodeError>(DecodeError::UnexpectedVariant),
{
    let env = envelope_value(tag_request(), id, data);
    assert(dec(enc(env), 0) == Some((env, enc(env).len() as int))) by {
        lemma_envelope_decode(tag_request(), id, data);
    }
    lemma_envelope_shape(tag_request(), id, data);
    assert(interp_envelope(env) == Err::<PayloadV, DecodeError>(DecodeError::UnexpectedVariant));
}

} // verus!
