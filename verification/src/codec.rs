//! The MessagePack-style byte encoding of payloads.
//!
//! The encoder writes fixed-width forms throughout - integers as 8
//! big-endian bytes, every length as 4 big-endian bytes - so the
//! encoding of a well-formed payload is a simple function of its model,
//! stated by [`enc`].  The decoder accepts the full grammar an ordinary
//! MessagePack writer may use on the wire, minimal-width forms
//! included; [`dec`] states exactly what each byte shape yields.

use vstd::prelude::*;
use crate::payload::{Payload, PayloadV, wf};

verus! {

broadcast use vstd::std_specs::vec::group_vec_axioms;

/// Format tag for nil.
pub const TAG_NIL: u8 = 0xc0;
/// Format tag for false.
pub const TAG_FALSE: u8 = 0xc2;
/// Format tag for true.
pub const TAG_TRUE: u8 = 0xc3;
/// Format tag for a signed 64-bit integer (8 big-endian bytes follow).
pub const TAG_INT: u8 = 0xd3;
/// Format tag for an unsigned 64-bit integer (8 big-endian bytes follow).
pub const TAG_U64: u8 = 0xcf;
/// Inbound-only format tags: the minimal-width integer, string, binary,
/// sequence and mapping forms an ordinary MessagePack writer emits.
pub const TAG_U8: u8 = 0xcc;
/// An unsigned 16-bit integer follows, big-endian.
pub const TAG_U16: u8 = 0xcd;
/// An unsigned 32-bit integer follows, big-endian.
pub const TAG_U32: u8 = 0xce;
/// A signed 8-bit integer follows.
pub const TAG_I8: u8 = 0xd0;
/// A signed 16-bit integer follows, big-endian.
pub const TAG_I16: u8 = 0xd1;
/// A signed 32-bit integer follows, big-endian.
pub const TAG_I32: u8 = 0xd2;
/// A string with a 1-byte length follows.
pub const TAG_STR8: u8 = 0xd9;
/// A string with a 2-byte length follows.
pub const TAG_STR16: u8 = 0xda;
/// A binary blob with a 1-byte length follows.
pub const TAG_BIN8: u8 = 0xc4;
/// A binary blob with a 2-byte length follows.
pub const TAG_BIN16: u8 = 0xc5;
/// A sequence with a 2-byte count follows.
pub const TAG_ARR16: u8 = 0xdc;
/// A mapping with a 2-byte count follows.
pub const TAG_MAP16: u8 = 0xde;
/// Format tag for a string (4 big-endian length bytes, then the bytes).
pub const TAG_STR: u8 = 0xdb;
/// Format tag for a binary blob (4 big-endian length bytes, then the bytes).
pub const TAG_BIN: u8 = 0xc6;
/// Format tag for a sequence (4 big-endian count bytes, then the elements).
pub const TAG_ARR: u8 = 0xdd;
/// Format tag for a mapping (4 big-endian count bytes, then key/value pairs).
pub const TAG_MAP: u8 = 0xdf;

/// The 4 big-endian bytes of a 32-bit value.
pub open spec fn be32(x: u32) -> Seq<u8> {
    seq![
        ((x >> 24) & 0xff) as u8,
        ((x >> 16) & 0xff) as u8,
        ((x >> 8) & 0xff) as u8,
        (x & 0xff) as u8,
    ]
}

/// The 8 big-endian bytes of a 64-bit value.
pub open spec fn be64(x: u64) -> Seq<u8> {
    seq![
        ((x >> 56) & 0xff) as u8,
        ((x >> 48) & 0xff) as u8,
        ((x >> 40) & 0xff) as u8,
        ((x >> 32) & 0xff) as u8,
        ((x >> 24) & 0xff) as u8,
        ((x >> 16) & 0xff) as u8,
        ((x >> 8) & 0xff) as u8,
        (x & 0xff) as u8,
    ]
}

/// The encoding of a string used for mapping keys.
pub open spec fn enc_key(s: Seq<u8>) -> Seq<u8> {
    seq![TAG_STR] + be32(s.len() as u32) + s
}

/// The byte encoding of a payload.
pub open spec fn enc(p: PayloadV) -> Seq<u8>
    decreases p,
{
    match p {
        PayloadV::Nil => seq![TAG_NIL],
        PayloadV::Bool(b) => if b { seq![TAG_TRUE] } else { seq![TAG_FALSE] },
        PayloadV::Int(i) => seq![TAG_INT] + be64(i as u64),
        PayloadV::UInt(u) => seq![TAG_U64] + be64(u),
        PayloadV::Str(s) => seq![TAG_STR] + be32(s.len() as u32) + s,
        PayloadV::Bin(s) => seq![TAG_BIN] + be32(s.len() as u32) + s,
        PayloadV::Arr(a) => seq![TAG_ARR] + be32(a.len() as u32) + enc_elems(a),
        PayloadV::Dict(m) => seq![TAG_MAP] + be32(m.len() as u32) + enc_entries(m),
    }
}

/// The concatenated encodings of a sequence's elements.
pub open spec fn enc_elems(a: Seq<PayloadV>) -> Seq<u8>
    decreases a,
{
    if a.len() == 0 {
        Seq::empty()
    } else {
        enc(a[0]) + enc_elems(a.drop_first())
    }
}

/// The concatenated encodings of a mapping's key/value pairs.
pub open spec fn enc_entries(m: Seq<(Seq<u8>, PayloadV)>) -> Seq<u8>
    decreases m,
{
    if m.len() == 0 {
        Seq::empty()
    } else {
        enc_key(m[0].0) + enc(m[0].1) + enc_entries(m.drop_first())
    }
}

/// Appending one element appends its encoding.
pub proof fn lemma_enc_elems_push(a: Seq<PayloadV>, x: PayloadV)
    ensures
        enc_elems(a.push(x)) == enc_elems(a) + enc(x),
    decreases a.len(),
{
    if a.len() == 0 {
        assert(a.push(x)[0] == x);
        assert(a.push(x).drop_first() =~= Seq::<PayloadV>::empty());
        assert(enc_elems(Seq::<PayloadV>::empty()) =~= Seq::<u8>::empty());
        assert(a =~= Seq::<PayloadV>::empty());
        assert(enc_elems(a.push(x)) =~= enc_elems(a) + enc(x));
    } else {
        assert(a.push(x).drop_first() =~= a.drop_first().push(x));
        lemma_enc_elems_push(a.drop_first(), x);
        assert(a.push(x)[0] == a[0]);
        assert(enc_elems(a.push(x)) =~= enc_elems(a) + enc(x));
    }
}

/// Appending one pair appends its key and value encodings.
pub proof fn lemma_enc_entries_push(m: Seq<(Seq<u8>, PayloadV)>, x: (Seq<u8>, PayloadV))
    ensures
        enc_entries(m.push(x)) == enc_entries(m) + enc_key(x.0) + enc(x.1),
    decreases m.len(),
{
    if m.len() == 0 {
        assert(m.push(x)[0] == x);
        assert(m.push(x).drop_first() =~= Seq::<(Seq<u8>, PayloadV)>::empty());
        assert(enc_entries(Seq::<(Seq<u8>, PayloadV)>::empty()) =~= Seq::<u8>::empty());
        assert(m =~= Seq::<(Seq<u8>, PayloadV)>::empty());
        assert(enc_entries(m.push(x)) =~= enc_entries(m) + enc_key(x.0) + enc(x.1));
    } else {
        assert(m.push(x).drop_first() =~= m.drop_first().push(x));
        lemma_enc_entries_push(m.drop_first(), x);
        assert(m.push(x)[0] == m[0]);
        assert(enc_entries(m.push(x)) =~= enc_entries(m) + enc_key(x.0) + enc(x.1));
    }
}

/// Appends the 4 big-endian bytes of `x`.
pub fn push_be32(out: &mut Vec<u8>, x: u32)
    ensures
        final(out)@ == old(out)@ + be32(x),
{
    out.push(((x >> 24) & 0xff) as u8);
    out.push(((x >> 16) & 0xff) as u8);
    out.push(((x >> 8) & 0xff) as u8);
    out.push((x & 0xff) as u8);
    proof {
        assert(out@ =~= old(out)@ + be32(x));
    }
}

/// Appends the 8 big-endian bytes of `x`.
pub fn push_be64(out: &mut Vec<u8>, x: u64)
    ensures
        final(out)@ == old(out)@ + be64(x),
{
    out.push(((x >> 56) & 0xff) as u8);
    out.push(((x >> 48) & 0xff) as u8);
    out.push(((x >> 40) & 0xff) as u8);
    out.push(((x >> 32) & 0xff) as u8);
    out.push(((x >> 24) & 0xff) as u8);
    out.push(((x >> 16) & 0xff) as u8);
    out.push(((x >> 8) & 0xff) as u8);
    out.push((x & 0xff) as u8);
    proof {
        assert(out@ =~= old(out)@ + be64(x));
    }
}

/// Appends all of `s`.
pub fn push_bytes(out: &mut Vec<u8>, s: &Vec<u8>)
    ensures
        final(out)@ == old(out)@ + s@,
{
    let mut j: usize = 0;
    while j < s.len()
        invariant
            0 <= j <= s@.len(),
            out@ == old(out)@ + s@.take(j as int),
        decreases s@.len() - j,
    {
        out.push(s[j]);
        proof {
            assert(s@.take(j + 1 as int) =~= s@.take(j as int).push(s@[j as int]));
            assert(out@ =~= old(out)@ + s@.take(j + 1 as int));
        }
        j += 1;
    }
    proof {
        assert(s@.take(s@.len() as int) =~= s@);
    }
}

/// Appends the encoding of `p`.
pub fn encode_payload(p: &Payload, out: &mut Vec<u8>)
    requires
        wf(p@),
    ensures
        final(out)@ == old(out)@ + enc(p@),
    decreases *p,
{
    match p {
        Payload::Nil => {
            out.push(TAG_NIL);
            proof {
                assert(out@ =~= old(out)@ + enc(p@));
            }
        },
        Payload::Bool(b) => {
            out.push(if *b { TAG_TRUE } else { TAG_FALSE });
            proof {
                assert(out@ =~= old(out)@ + enc(p@));
            }
        },
        Payload::Int(i) => {
            out.push(TAG_INT);
            push_be64(out, *i as u64);
            proof {
                assert(out@ =~= old(out)@ + enc(p@));
            }
        },
        Payload::UInt(u) => {
            out.push(TAG_U64);
            push_be64(out, *u);
            proof {
                assert(out@ =~= old(out)@ + enc(p@));
            }
        },
        Payload::Str(s) => {
            out.push(TAG_STR);
            push_be32(out, s.len() as u32);
            push_bytes(out, s);
            proof {
                assert(s@.len() as u32 == p@->Str_0.len() as u32);
                assert(out@ =~= old(out)@ + enc(p@));
            }
        },
        Payload::Bin(s) => {
            out.push(TAG_BIN);
            push_be32(out, s.len() as u32);
            push_bytes(out, s);
            proof {
                assert(out@ =~= old(out)@ + enc(p@));
            }
        },
        Payload::Arr(v) => {
            out.push(TAG_ARR);
            push_be32(out, v.len() as u32);
            let ghost a = p@->Arr_0;
            let ghost base = out@;
            let mut i: usize = 0;
            while i < v.len()
                invariant
                    *p == Payload::Arr(*v),
                    wf(p@),
                    a == p@->Arr_0,
                    a.len() == v@.len(),
                    0 <= i <= v@.len(),
                    out@ == base + enc_elems(a.take(i as int)),
                decreases v@.len() - i,
            {
                proof {
                    vstd::std_specs::vec::axiom_vec_index_decreases(*v, i as int);
                    assert(a[i as int] == v@[i as int].deep());
                    assert(wf(a[i as int]));
                }
                encode_payload(&v[i], out);
                proof {
                    lemma_enc_elems_push(a.take(i as int), a[i as int]);
                    assert(a.take(i + 1 as int) =~= a.take(i as int).push(a[i as int]));
                    assert(out@ =~= base + enc_elems(a.take(i + 1 as int)));
                }
                i += 1;
            }
            proof {
                assert(a.take(a.len() as int) =~= a);
                assert(out@ =~= old(out)@ + enc(p@));
            }
        },
        Payload::Dict(m) => {
            out.push(TAG_MAP);
            push_be32(out, m.len() as u32);
            let ghost e = p@->Dict_0;
            let ghost base = out@;
            let mut i: usize = 0;
            while i < m.len()
                invariant
                    *p == Payload::Dict(*m),
                    wf(p@),
                    e == p@->Dict_0,
                    e.len() == m@.len(),
                    0 <= i <= m@.len(),
                    out@ == base + enc_entries(e.take(i as int)),
                decreases m@.len() - i,
            {
                proof {
                    vstd::std_specs::vec::axiom_vec_index_decreases(*m, i as int);
                    assert(e[i as int] == (m@[i as int].0@, m@[i as int].1.deep()));
                    assert(e[i as int].0.len() < 0x1_0000_0000 && wf(e[i as int].1));
                }
                let ghost before_key = out@;
                out.push(TAG_STR);
                push_be32(out, m[i].0.len() as u32);
                push_bytes(out, &m[i].0);
                proof {
                    assert(out@ =~= before_key + enc_key(e[i as int].0));
                }
                encode_payload(&m[i].1, out);
                proof {
                    lemma_enc_entries_push(e.take(i as int), e[i as int]);
                    assert(e.take(i + 1 as int) =~= e.take(i as int).push(e[i as int]));
                    assert(out@ =~= base + enc_entries(e.take(i + 1 as int)));
                }
                i += 1;
            }
            proof {
                assert(e.take(e.len() as int) =~= e);
                assert(out@ =~= old(out)@ + enc(p@));
            }
        },
    }
}

/// The 32-bit value held in 4 big-endian bytes at `pos`.
pub open spec fn be32_at(bytes: Seq<u8>, pos: int) -> u32 {
    ((bytes[pos] as u32) << 24) | ((bytes[pos + 1] as u32) << 16) | ((bytes[pos + 2] as u32) << 8)
        | (bytes[pos + 3] as u32)
}

/// The 64-bit value held in 8 big-endian bytes at `pos`.
pub open spec fn be64_at(bytes: Seq<u8>, pos: int) -> u64 {
    ((bytes[pos] as u64) << 56) | ((bytes[pos + 1] as u64) << 48) | ((bytes[pos + 2] as u64) << 40)
        | ((bytes[pos + 3] as u64) << 32) | ((bytes[pos + 4] as u64) << 24)
        | ((bytes[pos + 5] as u64) << 16) | ((bytes[pos + 6] as u64) << 8) | (bytes[pos + 7] as u64)
}

/// The 16-bit value held in 2 big-endian bytes at `pos`.
pub open spec fn be16_at(bytes: Seq<u8>, pos: int) -> u16 {
    ((bytes[pos] as u16) << 8) | (bytes[pos + 1] as u16)
}

/// Takes `n` raw bytes starting at `body`.
pub open spec fn take_raw(bytes: Seq<u8>, body: int, n: int) -> Option<(Seq<u8>, int)> {
    if body + n <= bytes.len() {
        Some((bytes.subrange(body, body + n), body + n))
    } else {
        None
    }
}

/// Reads one string of any width the wire allows: a fixstr tag holding
/// the length itself, or a 1-, 2- or 4-byte length after the tag.
pub open spec fn dec_str(bytes: Seq<u8>, pos: int) -> Option<(Seq<u8>, int)> {
    if pos < 0 || pos >= bytes.len() {
        None
    } else {
        let tag = bytes[pos];
        if 0xa0 <= tag && tag <= 0xbf {
            take_raw(bytes, pos + 1, (tag & 0x1f) as int)
        } else if tag == TAG_STR8 {
            if pos + 2 <= bytes.len() {
                take_raw(bytes, pos + 2, bytes[pos + 1] as int)
            } else {
                None
            }
        } else if tag == TAG_STR16 {
            if pos + 3 <= bytes.len() {
                take_raw(bytes, pos + 3, be16_at(bytes, pos + 1) as int)
            } else {
                None
            }
        } else if tag == TAG_STR {
            if pos + 5 <= bytes.len() {
                take_raw(bytes, pos + 5, be32_at(bytes, pos + 1) as int)
            } else {
                None
            }
        } else {
            None
        }
    }
}

/// Reads one binary blob of any width the wire allows.
pub open spec fn dec_bin(bytes: Seq<u8>, pos: int) -> Option<(Seq<u8>, int)> {
    if pos < 0 || pos >= bytes.len() {
        None
    } else {
        let tag = bytes[pos];
        if tag == TAG_BIN8 {
            if pos + 2 <= bytes.len() {
                take_raw(bytes, pos + 2, bytes[pos + 1] as int)
            } else {
                None
            }
        } else if tag == TAG_BIN16 {
            if pos + 3 <= bytes.len() {
                take_raw(bytes, pos + 3, be16_at(bytes, pos + 1) as int)
            } else {
                None
            }
        } else if tag == TAG_BIN {
            if pos + 5 <= bytes.len() {
                take_raw(bytes, pos + 5, be32_at(bytes, pos + 1) as int)
            } else {
                None
            }
        } else {
            None
        }
    }
}

/// What decoding one payload at `pos` yields: the value and the position
/// after it, or nothing if the bytes there are not an encoding.  The
/// accepted grammar is what an ordinary MessagePack writer may emit:
/// both fixints, every integer width (an unsigned value beyond the
/// signed range becomes `UInt`, everything else `Int`), every string,
/// binary, sequence and mapping width, nil and the booleans.  Floating
/// point and extension forms are outside the payload model and refused.
pub open spec fn dec(bytes: Seq<u8>, pos: int) -> Option<(PayloadV, int)>
    decreases bytes.len() - pos, 0int,
{
    if pos < 0 || pos >= bytes.len() {
        None
    } else {
        let tag = bytes[pos];
        if tag <= 0x7f {
            Some((PayloadV::Int(tag as i64), pos + 1))
        } else if tag >= 0xe0 {
            Some((PayloadV::Int((tag as i8) as i64), pos + 1))
        } else if tag == TAG_NIL {
            Some((PayloadV::Nil, pos + 1))
        } else if tag == TAG_FALSE {
            Some((PayloadV::Bool(false), pos + 1))
        } else if tag == TAG_TRUE {
            Some((PayloadV::Bool(true), pos + 1))
        } else if tag == TAG_U8 {
            if pos + 2 <= bytes.len() {
                Some((PayloadV::Int(bytes[pos + 1] as i64), pos + 2))
            } else {
                None
            }
        } else if tag == TAG_U16 {
            if pos + 3 <= bytes.len() {
                Some((PayloadV::Int(be16_at(bytes, pos + 1) as i64), pos + 3))
            } else {
                None
            }
        } else if tag == TAG_U32 {
            if pos + 5 <= bytes.len() {
                Some((PayloadV::Int(be32_at(bytes, pos + 1) as i64), pos + 5))
            } else {
                None
            }
        } else if tag == TAG_U64 {
            if pos + 9 <= bytes.len() {
                let u = be64_at(bytes, pos + 1);
                if u <= i64::MAX {
                    Some((PayloadV::Int(u as i64), pos + 9))
                } else {
                    Some((PayloadV::UInt(u), pos + 9))
                }
            } else {
                None
            }
        } else if tag == TAG_I8 {
            if pos + 2 <= bytes.len() {
                Some((PayloadV::Int((bytes[pos + 1] as i8) as i64), pos + 2))
            } else {
                None
            }
        } else if tag == TAG_I16 {
            if pos + 3 <= bytes.len() {
                Some((PayloadV::Int((be16_at(bytes, pos + 1) as i16) as i64), pos + 3))
            } else {
                None
            }
        } else if tag == TAG_I32 {
            if pos + 5 <= bytes.len() {
                Some((PayloadV::Int((be32_at(bytes, pos + 1) as i32) as i64), pos + 5))
            } else {
                None
            }
        } else if tag == TAG_INT {
            if pos + 9 <= bytes.len() {
                Some((PayloadV::Int(be64_at(bytes, pos + 1) as i64), pos + 9))
            } else {
                None
            }
        } else if (0xa0 <= tag && tag <= 0xbf) || tag == TAG_STR8 || tag == TAG_STR16 || tag
            == TAG_STR {
            match dec_str(bytes, pos) {
                Some((sv, end)) => Some((PayloadV::Str(sv), end)),
                None => None,
            }
        } else if tag == TAG_BIN8 || tag == TAG_BIN16 || tag == TAG_BIN {
            match dec_bin(bytes, pos) {
                Some((sv, end)) => Some((PayloadV::Bin(sv), end)),
                None => None,
            }
        } else if 0x90 <= tag && tag <= 0x9f {
            match dec_elems(bytes, pos + 1, (tag & 0x0f) as int) {
                Some((vs, end)) => Some((PayloadV::Arr(vs), end)),
                None => None,
            }
        } else if tag == TAG_ARR16 {
            if pos + 3 <= bytes.len() {
                match dec_elems(bytes, pos + 3, be16_at(bytes, pos + 1) as int) {
                    Some((vs, end)) => Some((PayloadV::Arr(vs), end)),
                    None => None,
                }
            } else {
                None
            }
        } else if tag == TAG_ARR {
            if pos + 5 <= bytes.len() {
                match dec_elems(bytes, pos + 5, be32_at(bytes, pos + 1) as int) {
                    Some((vs, end)) => Some((PayloadV::Arr(vs), end)),
                    None => None,
                }
            } else {
                None
            }
        } else if 0x80 <= tag && tag <= 0x8f {
            match dec_entries(bytes, pos + 1, (tag & 0x0f) as int) {
                Some((es, end)) => Some((PayloadV::Dict(es), end)),
                None => None,
            }
        } else if tag == TAG_MAP16 {
            if pos + 3 <= bytes.len() {
                match dec_entries(bytes, pos + 3, be16_at(bytes, pos + 1) as int) {
                    Some((es, end)) => Some((PayloadV::Dict(es), end)),
                    None => None,
                }
            } else {
                None
            }
        } else if tag == TAG_MAP {
            if pos + 5 <= bytes.len() {
                match dec_entries(bytes, pos + 5, be32_at(bytes, pos + 1) as int) {
                    Some((es, end)) => Some((PayloadV::Dict(es), end)),
                    None => None,
                }
            } else {
                None
            }
        } else {
            None
        }
    }
}

/// Decodes `n` consecutive payloads starting at `pos`.
pub open spec fn dec_elems(bytes: Seq<u8>, pos: int, n: int) -> Option<(Seq<PayloadV>, int)>
    decreases bytes.len() - pos, n,
{
    if n <= 0 {
        Some((Seq::empty(), pos))
    } else {
        match dec(bytes, pos) {
            None => None,
            Some((v, pos2)) => if pos < pos2 <= bytes.len() {
                match dec_elems(bytes, pos2, n - 1) {
                    None => None,
                    Some((vs, end)) => Some((seq![v] + vs, end)),
                }
            } else {
                None
            },
        }
    }
}

/// Decodes `n` consecutive key/value pairs starting at `pos`.
pub open spec fn dec_entries(bytes: Seq<u8>, pos: int, n: int) -> Option<(Seq<(Seq<u8>, PayloadV)>, int)>
    decreases bytes.len() - pos, n,
{
    if n <= 0 {
        Some((Seq::empty(), pos))
    } else {
        match dec_str(bytes, pos) {
            None => None,
            Some((k, pos1)) => if pos < pos1 <= bytes.len() {
                match dec(bytes, pos1) {
                    None => None,
                    Some((v, pos2)) => if pos1 < pos2 <= bytes.len() {
                        match dec_entries(bytes, pos2, n - 1) {
                            None => None,
                            Some((es, end)) => Some((seq![(k, v)] + es, end)),
                        }
                    } else {
                        None
                    },
                }
            } else {
                None
            },
        }
    }
}

/// Reads 4 big-endian bytes at `pos`.
pub fn read_be32(bytes: &Vec<u8>, pos: usize) -> (r: u32)
    requires
        pos + 4 <= bytes.len(),
    ensures
        r == be32_at(bytes@, pos as int),
{
    ((bytes[pos] as u32) << 24) | ((bytes[pos + 1] as u32) << 16) | ((bytes[pos + 2] as u32) << 8)
        | (bytes[pos + 3] as u32)
}

/// Reads 8 big-endian bytes at `pos`.
pub fn read_be64(bytes: &Vec<u8>, pos: usize) -> (r: u64)
    requires
        pos + 8 <= bytes.len(),
    ensures
        r == be64_at(bytes@, pos as int),
{
    ((bytes[pos] as u64) << 56) | ((bytes[pos + 1] as u64) << 48) | ((bytes[pos + 2] as u64) << 40)
        | ((bytes[pos + 3] as u64) << 32) | ((bytes[pos + 4] as u64) << 24)
        | ((bytes[pos + 5] as u64) << 16) | ((bytes[pos + 6] as u64) << 8) | (bytes[pos + 7] as u64)
}

/// Copies `n` bytes starting at `start` into a fresh vector.
pub fn copy_range(bytes: &Vec<u8>, start: usize, n: usize) -> (r: Vec<u8>)
    requires
        start + n <= bytes.len(),
    ensures
        r@ == bytes@.subrange(start as int, start + n),
{
    let mut r: Vec<u8> = Vec::new();
    let mut j: usize = 0;
    while j < n
        invariant
            0 <= j <= n,
            start + n <= bytes.len(),
            r@ == bytes@.subrange(start as int, start + j),
        decreases n - j,
    {
        r.push(bytes[start + j]);
        proof {
            assert(bytes@.subrange(start as int, start + j + 1) =~= bytes@.subrange(
                start as int,
                start + j,
            ).push(bytes@[start + j]));
        }
        j += 1;
    }
    r
}

/// Reads 2 big-endian bytes at `pos`.
pub fn read_be16(bytes: &Vec<u8>, pos: usize) -> (r: u16)
    requires
        pos + 2 <= bytes.len(),
    ensures
        r == be16_at(bytes@, pos as int),
{
    ((bytes[pos] as u16) << 8) | (bytes[pos + 1] as u16)
}

/// Reads one string of any width at `pos`, exactly as [`dec_str`] says.
pub fn decode_str(bytes: &Vec<u8>, pos: usize) -> (r: Option<(Vec<u8>, usize)>)
    ensures
        match r {
            Some(q) => dec_str(bytes@, pos as int) == Some((q.0@, q.1 as int)) && pos < q.1
                <= bytes@.len(),
            None => dec_str(bytes@, pos as int) is None,
        },
{
    if pos >= bytes.len() {
        return None;
    }
    let tag = bytes[pos];
    if 0xa0 <= tag && tag <= 0xbf {
        let n = (tag & 0x1f) as usize;
        if n > bytes.len() - (pos + 1) {
            return None;
        }
        let sv = copy_range(bytes, pos + 1, n);
        Some((sv, pos + 1 + n))
    } else if tag == TAG_STR8 {
        if bytes.len() - pos < 2 {
            return None;
        }
        let n = bytes[pos + 1] as usize;
        if n > bytes.len() - (pos + 2) {
            return None;
        }
        let sv = copy_range(bytes, pos + 2, n);
        Some((sv, pos + 2 + n))
    } else if tag == TAG_STR16 {
        if bytes.len() - pos < 3 {
            return None;
        }
        let n = read_be16(bytes, pos + 1) as usize;
        if n > bytes.len() - (pos + 3) {
            return None;
        }
        let sv = copy_range(bytes, pos + 3, n);
        Some((sv, pos + 3 + n))
    } else if tag == TAG_STR {
        if bytes.len() - pos < 5 {
            return None;
        }
        let n = read_be32(bytes, pos + 1) as usize;
        if n > bytes.len() - (pos + 5) {
            return None;
        }
        let sv = copy_range(bytes, pos + 5, n);
        Some((sv, pos + 5 + n))
    } else {
        None
    }
}

/// Reads one binary blob of any width at `pos`, exactly as [`dec_bin`]
/// says.
pub fn decode_bin(bytes: &Vec<u8>, pos: usize) -> (r: Option<(Vec<u8>, usize)>)
    ensures
        match r {
            Some(q) => dec_bin(bytes@, pos as int) == Some((q.0@, q.1 as int)) && pos < q.1
                <= bytes@.len(),
            None => dec_bin(bytes@, pos as int) is None,
        },
{
    if pos >= bytes.len() {
        return None;
    }
    let tag = bytes[pos];
    if tag == TAG_BIN8 {
        if bytes.len() - pos < 2 {
            return None;
        }
        let n = bytes[pos + 1] as usize;
        if n > bytes.len() - (pos + 2) {
            return None;
        }
        let sv = copy_range(bytes, pos + 2, n);
        Some((sv, pos + 2 + n))
    } else if tag == TAG_BIN16 {
        if bytes.len() - pos < 3 {
            return None;
        }
        let n = read_be16(bytes, pos + 1) as usize;
        if n > bytes.len() - (pos + 3) {
            return None;
        }
        let sv = copy_range(bytes, pos + 3, n);
        Some((sv, pos + 3 + n))
    } else if tag == TAG_BIN {
        if bytes.len() - pos < 5 {
            return None;
        }
        let n = read_be32(bytes, pos + 1) as usize;
        if n > bytes.len() - (pos + 5) {
            return None;
        }
        let sv = copy_range(bytes, pos + 5, n);
        Some((sv, pos + 5 + n))
    } else {
        None
    }
}

/// Decodes `count` consecutive payloads starting at `start`, exactly as
/// [`dec_elems`] says.
pub fn decode_elems(bytes: &Vec<u8>, start: usize, count: u32) -> (r: Option<(Vec<Payload>, usize)>)
    requires
        start <= bytes.len(),
    ensures
        match r {
            Some(q) => dec_elems(bytes@, start as int, count as int) == Some((
                crate::payload::deep_seq(q.0@),
                q.1 as int,
            )) && start <= q.1 <= bytes@.len(),
            None => dec_elems(bytes@, start as int, count as int) is None,
        },
    decreases bytes@.len() - start, count,
{
    let mut elems: Vec<Payload> = Vec::new();
    let mut cur: usize = start;
    let mut k: u32 = 0;
    while k < count
        invariant
            start <= bytes.len(),
            start <= cur <= bytes@.len(),
            cur == start ==> k == 0,
            0 <= k <= count,
            elems@.len() == k,
            dec_elems(bytes@, start as int, count as int) == (match dec_elems(
                bytes@,
                cur as int,
                count - k,
            ) {
                Some(t) => Some((crate::payload::deep_seq(elems@) + t.0, t.1)),
                None => None::<(Seq<PayloadV>, int)>,
            }),
        decreases count - k,
    {
        match decode_payload(bytes, cur) {
            None => {
                proof {
                    assert(dec_elems(bytes@, cur as int, count - k) is None);
                    assert(dec_elems(bytes@, start as int, count as int) is None);
                }
                return None;
            },
            Some((p, newpos)) => {
                proof {
                    let ghost old_views = crate::payload::deep_seq(elems@);
                    crate::payload::lemma_deep_seq_push(elems@, p);
                    assert(dec(bytes@, cur as int) == Some((p@, newpos as int)));
                    assert(dec_elems(bytes@, cur as int, count - k) == (match dec_elems(
                        bytes@,
                        newpos as int,
                        count - k - 1,
                    ) {
                        Some(t) => Some((seq![p@] + t.0, t.1)),
                        None => None::<(Seq<PayloadV>, int)>,
                    }));
                    let ghost rest = dec_elems(bytes@, newpos as int, count - k - 1);
                    if rest is Some {
                        let ghost t = rest->Some_0;
                        assert(old_views + (seq![p@] + t.0) =~= old_views.push(p@) + t.0);
                    }
                }
                elems.push(p);
                cur = newpos;
                k += 1;
            },
        }
    }
    proof {
        assert(dec_elems(bytes@, cur as int, 0) == Some((Seq::<PayloadV>::empty(), cur as int)));
        assert(crate::payload::deep_seq(elems@) + Seq::<PayloadV>::empty() =~= crate::payload::deep_seq(
            elems@,
        ));
        assert(dec_elems(bytes@, start as int, count as int) == Some((
            crate::payload::deep_seq(elems@),
            cur as int,
        )));
    }
    Some((elems, cur))
}

/// Decodes `count` consecutive key/value pairs starting at `start`,
/// exactly as [`dec_entries`] says.
pub fn decode_entries(bytes: &Vec<u8>, start: usize, count: u32) -> (r: Option<(
    Vec<(Vec<u8>, Payload)>,
    usize,
)>)
    requires
        start <= bytes.len(),
    ensures
        match r {
            Some(q) => dec_entries(bytes@, start as int, count as int) == Some((
                crate::payload::deep_entries(q.0@),
                q.1 as int,
            )) && start <= q.1 <= bytes@.len(),
            None => dec_entries(bytes@, start as int, count as int) is None,
        },
    decreases bytes@.len() - start, count,
{
    let mut entries: Vec<(Vec<u8>, Payload)> = Vec::new();
    let mut cur: usize = start;
    let mut k: u32 = 0;
    while k < count
        invariant
            start <= bytes.len(),
            start <= cur <= bytes@.len(),
            cur == start ==> k == 0,
            0 <= k <= count,
            entries@.len() == k,
            dec_entries(bytes@, start as int, count as int) == (match dec_entries(
                bytes@,
                cur as int,
                count - k,
            ) {
                Some(t) => Some((crate::payload::deep_entries(entries@) + t.0, t.1)),
                None => None::<(Seq<(Seq<u8>, PayloadV)>, int)>,
            }),
        decreases count - k,
    {
        let (key, keyend) = match decode_str(bytes, cur) {
            Some(q) => q,
            None => {
                proof {
                    assert(dec_entries(bytes@, cur as int, count - k) is None);
                    assert(dec_entries(bytes@, start as int, count as int) is None);
                }
                return None;
            },
        };
        match decode_payload(bytes, keyend) {
            None => {
                proof {
                    assert(dec_entries(bytes@, cur as int, count - k) is None);
                    assert(dec_entries(bytes@, start as int, count as int) is None);
                }
                return None;
            },
            Some((p, newpos)) => {
                proof {
                    let ghost old_views = crate::payload::deep_entries(entries@);
                    crate::payload::lemma_deep_entries_push(entries@, (key, p));
                    assert(dec_entries(bytes@, cur as int, count - k) == (match dec_entries(
                        bytes@,
                        newpos as int,
                        count - k - 1,
                    ) {
                        Some(t) => Some((seq![(key@, p@)] + t.0, t.1)),
                        None => None::<(Seq<(Seq<u8>, PayloadV)>, int)>,
                    }));
                    let ghost rest = dec_entries(bytes@, newpos as int, count - k - 1);
                    if rest is Some {
                        let ghost t = rest->Some_0;
                        assert(old_views + (seq![(key@, p@)] + t.0) =~= old_views.push((key@, p@))
                            + t.0);
                    }
                }
                entries.push((key, p));
                cur = newpos;
                k += 1;
            },
        }
    }
    proof {
        assert(dec_entries(bytes@, cur as int, 0) == Some((
            Seq::<(Seq<u8>, PayloadV)>::empty(),
            cur as int,
        )));
        assert(crate::payload::deep_entries(entries@) + Seq::<(Seq<u8>, PayloadV)>::empty()
            =~= crate::payload::deep_entries(entries@));
        assert(dec_entries(bytes@, start as int, count as int) == Some((
            crate::payload::deep_entries(entries@),
            cur as int,
        )));
    }
    Some((entries, cur))
}

/// Decodes one payload at `pos`, exactly as [`dec`] describes.
pub fn decode_payload(bytes: &Vec<u8>, pos: usize) -> (r: Option<(Payload, usize)>)
    ensures
        match r {
            Some(q) => dec(bytes@, pos as int) == Some((q.0@, q.1 as int)) && pos < q.1
                <= bytes@.len(),
            None => dec(bytes@, pos as int) is None,
        },
    decreases bytes@.len() - pos, 0int,
{
    if pos >= bytes.len() {
        return None;
    }
    let tag = bytes[pos];
    if tag <= 0x7f {
        Some((Payload::Int(tag as i64), pos + 1))
    } else if tag >= 0xe0 {
        Some((Payload::Int(#[verifier::truncate] (tag as i8) as i64), pos + 1))
    } else if tag == TAG_NIL {
        Some((Payload::Nil, pos + 1))
    } else if tag == TAG_FALSE {
        Some((Payload::Bool(false), pos + 1))
    } else if tag == TAG_TRUE {
        Some((Payload::Bool(true), pos + 1))
    } else if tag == TAG_U8 {
        if bytes.len() - pos < 2 {
            return None;
        }
        Some((Payload::Int(bytes[pos + 1] as i64), pos + 2))
    } else if tag == TAG_U16 {
        if bytes.len() - pos < 3 {
            return None;
        }
        Some((Payload::Int(read_be16(bytes, pos + 1) as i64), pos + 3))
    } else if tag == TAG_U32 {
        if bytes.len() - pos < 5 {
            return None;
        }
        Some((Payload::Int(read_be32(bytes, pos + 1) as i64), pos + 5))
    } else if tag == TAG_U64 {
        if bytes.len() - pos < 9 {
            return None;
        }
        let u = read_be64(bytes, pos + 1);
        if u <= 0x7fff_ffff_ffff_ffffu64 {
            Some((Payload::Int(u as i64), pos + 9))
        } else {
            Some((Payload::UInt(u), pos + 9))
        }
    } else if tag == TAG_I8 {
        if bytes.len() - pos < 2 {
            return None;
        }
        Some((Payload::Int(#[verifier::truncate] (bytes[pos + 1] as i8) as i64), pos + 2))
    } else if tag == TAG_I16 {
        if bytes.len() - pos < 3 {
            return None;
        }
        Some((Payload::Int(#[verifier::truncate] (read_be16(bytes, pos + 1) as i16) as i64), pos + 3))
    } else if tag == TAG_I32 {
        if bytes.len() - pos < 5 {
            return None;
        }
        Some((Payload::Int(#[verifier::truncate] (read_be32(bytes, pos + 1) as i32) as i64), pos + 5))
    } else if tag == TAG_INT {
        if bytes.len() - pos < 9 {
            return None;
        }
        let v = read_be64(bytes, pos + 1);
        Some((Payload::Int(#[verifier::truncate] (v as i64)), pos + 9))
    } else if (0xa0 <= tag && tag <= 0xbf) || tag == TAG_STR8 || tag == TAG_STR16 || tag
        == TAG_STR {
        match decode_str(bytes, pos) {
            Some((sv, end)) => Some((Payload::Str(sv), end)),
            None => None,
        }
    } else if tag == TAG_BIN8 || tag == TAG_BIN16 || tag == TAG_BIN {
        match decode_bin(bytes, pos) {
            Some((sv, end)) => Some((Payload::Bin(sv), end)),
            None => None,
        }
    } else if 0x90 <= tag && tag <= 0x9f {
        match decode_elems(bytes, pos + 1, (tag & 0x0f) as u32) {
            Some((v, end)) => Some((Payload::Arr(v), end)),
            None => None,
        }
    } else if tag == TAG_ARR16 {
        if bytes.len() - pos < 3 {
            return None;
        }
        match decode_elems(bytes, pos + 3, read_be16(bytes, pos + 1) as u32) {
            Some((v, end)) => Some((Payload::Arr(v), end)),
            None => None,
        }
    } else if tag == TAG_ARR {
        if bytes.len() - pos < 5 {
            return None;
        }
        match decode_elems(bytes, pos + 5, read_be32(bytes, pos + 1)) {
            Some((v, end)) => Some((Payload::Arr(v), end)),
            None => None,
        }
    } else if 0x80 <= tag && tag <= 0x8f {
        match decode_entries(bytes, pos + 1, (tag & 0x0f) as u32) {
            Some((m, end)) => Some((Payload::Dict(m), end)),
            None => None,
        }
    } else if tag == TAG_MAP16 {
        if bytes.len() - pos < 3 {
            return None;
        }
        match decode_entries(bytes, pos + 3, read_be16(bytes, pos + 1) as u32) {
            Some((m, end)) => Some((Payload::Dict(m), end)),
            None => None,
        }
    } else if tag == TAG_MAP {
        if bytes.len() - pos < 5 {
            return None;
        }
        match decode_entries(bytes, pos + 5, read_be32(bytes, pos + 1)) {
            Some((m, end)) => Some((Payload::Dict(m), end)),
            None => None,
        }
    } else {
        None
    }
}

/// The bytes of a subrange known as a whole are known pointwise.
proof fn lemma_bytes_at(bytes: Seq<u8>, pos: int, e: Seq<u8>)
    requires
        0 <= pos,
        pos + e.len() <= bytes.len(),
        bytes.subrange(pos, pos + e.len()) == e,
    ensures
        forall|i: int| 0 <= i < e.len() ==> bytes[pos + i] == #[trigger] e[i],
{
    assert forall|i: int| 0 <= i < e.len() implies bytes[pos + i] == #[trigger] e[i] by {
        assert(e[i] == bytes.subrange(pos, pos + e.len())[i]);
    }
}

/// A subrange equal to a concatenation splits into two subranges.
proof fn lemma_split(bytes: Seq<u8>, pos: int, e1: Seq<u8>, e2: Seq<u8>)
    requires
        0 <= pos,
        pos + e1.len() + e2.len() <= bytes.len(),
        bytes.subrange(pos, pos + e1.len() + e2.len()) == e1 + e2,
    ensures
        bytes.subrange(pos, pos + e1.len()) == e1,
        bytes.subrange(pos + e1.len(), pos + e1.len() + e2.len()) == e2,
{
    lemma_bytes_at(bytes, pos, e1 + e2);
    assert forall|i: int| 0 <= i < e1.len() implies bytes.subrange(pos, pos + e1.len())[i]
        == e1[i] by {
        assert(bytes[pos + i] == (e1 + e2)[i]);
    }
    assert(bytes.subrange(pos, pos + e1.len()) =~= e1);
    assert forall|i: int| 0 <= i < e2.len() implies bytes.subrange(
        pos + e1.len(),
        pos + e1.len() + e2.len(),
    )[i] == e2[i] by {
        assert(bytes[pos + e1.len() + i] == (e1 + e2)[e1.len() + i]);
    }
    assert(bytes.subrange(pos + e1.len(), pos + e1.len() + e2.len()) =~= e2);
}

/// Every encoding starts with its tag byte, so none is empty.
proof fn lemma_enc_len(p: PayloadV)
    ensures
        enc(p).len() >= 1,
{
}

/// Reading back 4 big-endian bytes yields the value written.
proof fn lemma_be32_at(bytes: Seq<u8>, pos: int, x: u32)
    requires
        0 <= pos,
        pos + 4 <= bytes.len(),
        forall|i: int| 0 <= i < 4 ==> bytes[pos + i] == #[trigger] be32(x)[i],
    ensures
        be32_at(bytes, pos) == x,
{
    let b0 = bytes[pos];
    let b1 = bytes[pos + 1];
    let b2 = bytes[pos + 2];
    let b3 = bytes[pos + 3];
    assert(b0 == be32(x)[0] && b1 == be32(x)[1] && b2 == be32(x)[2] && b3 == be32(x)[3]);
    assert(((b0 as u32) << 24 | (b1 as u32) << 16 | (b2 as u32) << 8 | (b3 as u32)) == x)
        by (bit_vector)
        requires
            b0 == ((x >> 24) & 0xff) as u8,
            b1 == ((x >> 16) & 0xff) as u8,
            b2 == ((x >> 8) & 0xff) as u8,
            b3 == (x & 0xff) as u8,
    ;
}

/// Reading back 8 big-endian bytes yields the value written.
proof fn lemma_be64_at(bytes: Seq<u8>, pos: int, x: u64)
    requires
        0 <= pos,
        pos + 8 <= bytes.len(),
        forall|i: int| 0 <= i < 8 ==> bytes[pos + i] == #[trigger] be64(x)[i],
    ensures
        be64_at(bytes, pos) == x,
{
    let b0 = bytes[pos];
    let b1 = bytes[pos + 1];
    let b2 = bytes[pos + 2];
    let b3 = bytes[pos + 3];
    let b4 = bytes[pos + 4];
    let b5 = bytes[pos + 5];
    let b6 = bytes[pos + 6];
    let b7 = bytes[pos + 7];
    assert(b0 == be64(x)[0] && b1 == be64(x)[1] && b2 == be64(x)[2] && b3 == be64(x)[3]
        && b4 == be64(x)[4] && b5 == be64(x)[5] && b6 == be64(x)[6] && b7 == be64(x)[7]);
    assert(((b0 as u64) << 56 | (b1 as u64) << 48 | (b2 as u64) << 40 | (b3 as u64) << 32
        | (b4 as u64) << 24 | (b5 as u64) << 16 | (b6 as u64) << 8 | (b7 as u64)) == x)
        by (bit_vector)
        requires
            b0 == ((x >> 56) & 0xff) as u8,
            b1 == ((x >> 48) & 0xff) as u8,
            b2 == ((x >> 40) & 0xff) as u8,
            b3 == ((x >> 32) & 0xff) as u8,
            b4 == ((x >> 24) & 0xff) as u8,
            b5 == ((x >> 16) & 0xff) as u8,
            b6 == ((x >> 8) & 0xff) as u8,
            b7 == (x & 0xff) as u8,
    ;
}

/// A key written by [`enc_key`] reads back as itself.
proof fn lemma_dec_key(bytes: Seq<u8>, pos: int, k: Seq<u8>)
    requires
        k.len() < 0x1_0000_0000,
        0 <= pos,
        pos + enc_key(k).len() <= bytes.len(),
        bytes.subrange(pos, pos + enc_key(k).len()) == enc_key(k),
    ensures
        dec_str(bytes, pos) == Some((k, pos + enc_key(k).len())),
{
    let x = k.len() as u32;
    let hdr = seq![TAG_STR] + be32(x);
    assert(hdr.len() == 5);
    assert(enc_key(k) =~= hdr + k);
    lemma_split(bytes, pos, hdr, k);
    lemma_bytes_at(bytes, pos, hdr);
    assert(bytes[pos + 0] == hdr[0] && hdr[0] == TAG_STR);
    assert forall|i: int| 0 <= i < 4 implies bytes[pos + 1 + i] == #[trigger] be32(x)[i] by {
        assert(bytes[pos + (1 + i)] == hdr[1 + i]);
        assert(hdr[1 + i] == be32(x)[i]);
    }
    lemma_be32_at(bytes, pos + 1, x);
    assert(be32_at(bytes, pos + 1) as int == k.len());
    assert(dec_str(bytes, pos) == Some((k, pos + 5 + k.len())));
}

/// Decoding reads back exactly the payload that [`enc`] wrote, leaving
/// the position just after it: the codec round-trips on every
/// well-formed payload, wherever its bytes sit in a larger buffer.
pub proof fn lemma_dec_enc(bytes: Seq<u8>, pos: int, p: PayloadV)
    requires
        wf(p),
        0 <= pos,
        pos + enc(p).len() <= bytes.len(),
        bytes.subrange(pos, pos + enc(p).len()) == enc(p),
    ensures
        dec(bytes, pos) == Some((p, pos + enc(p).len())),
    decreases p,
{
    lemma_bytes_at(bytes, pos, enc(p));
    lemma_enc_len(p);
    match p {
        PayloadV::Nil => {
            assert(bytes[pos + 0] == enc(p)[0] && enc(p)[0] == TAG_NIL);
        },
        PayloadV::Bool(b) => {
            assert(bytes[pos + 0] == enc(p)[0]);
            assert(enc(p)[0] == if b { TAG_TRUE } else { TAG_FALSE });
        },
        PayloadV::Int(i) => {
            let x = #[verifier::truncate] (i as u64);
            let hdr = seq![TAG_INT] + be64(x);
            assert(enc(p) =~= hdr);
            lemma_bytes_at(bytes, pos, hdr);
            assert(bytes[pos + 0] == hdr[0] && hdr[0] == TAG_INT);
            assert forall|j: int| 0 <= j < 8 implies bytes[pos + 1 + j] == #[trigger] be64(x)[j] by {
                assert(bytes[pos + (1 + j)] == hdr[1 + j]);
                assert(hdr[1 + j] == be64(x)[j]);
            }
            lemma_be64_at(bytes, pos + 1, x);
            assert(((i as u64) as i64) == i) by (bit_vector);
        },
        PayloadV::UInt(u) => {
            let hdr = seq![TAG_U64] + be64(u);
            assert(enc(p) =~= hdr);
            lemma_bytes_at(bytes, pos, hdr);
            assert(bytes[pos + 0] == hdr[0] && hdr[0] == TAG_U64);
            assert forall|j: int| 0 <= j < 8 implies bytes[pos + 1 + j] == #[trigger] be64(u)[j] by {
                assert(bytes[pos + (1 + j)] == hdr[1 + j]);
                assert(hdr[1 + j] == be64(u)[j]);
            }
            lemma_be64_at(bytes, pos + 1, u);
        },
        PayloadV::Str(s) => {
            let x = s.len() as u32;
            let hdr = seq![TAG_STR] + be32(x);
            assert(hdr.len() == 5);
            assert(enc(p) =~= hdr + s);
            lemma_split(bytes, pos, hdr, s);
            lemma_bytes_at(bytes, pos, hdr);
            assert(bytes[pos + 0] == hdr[0] && hdr[0] == TAG_STR);
            assert forall|j: int| 0 <= j < 4 implies bytes[pos + 1 + j] == #[trigger] be32(x)[j] by {
                assert(bytes[pos + (1 + j)] == hdr[1 + j]);
                assert(hdr[1 + j] == be32(x)[j]);
            }
            lemma_be32_at(bytes, pos + 1, x);
            assert(be32_at(bytes, pos + 1) as int == s.len());
            assert(dec_str(bytes, pos) == Some((s, pos + 5 + s.len())));
        },
        PayloadV::Bin(s) => {
            let x = s.len() as u32;
            let hdr = seq![TAG_BIN] + be32(x);
            assert(hdr.len() == 5);
            assert(enc(p) =~= hdr + s);
            lemma_split(bytes, pos, hdr, s);
            lemma_bytes_at(bytes, pos, hdr);
            assert(bytes[pos + 0] == hdr[0] && hdr[0] == TAG_BIN);
            assert forall|j: int| 0 <= j < 4 implies bytes[pos + 1 + j] == #[trigger] be32(x)[j] by {
                assert(bytes[pos + (1 + j)] == hdr[1 + j]);
                assert(hdr[1 + j] == be32(x)[j]);
            }
            lemma_be32_at(bytes, pos + 1, x);
            assert(be32_at(bytes, pos + 1) as int == s.len());
            assert(dec_bin(bytes, pos) == Some((s, pos + 5 + s.len())));
        },
        PayloadV::Arr(a) => {
            let x = a.len() as u32;
            let hdr = seq![TAG_ARR] + be32(x);
            assert(hdr.len() == 5);
            assert(enc(p) =~= hdr + enc_elems(a));
            lemma_split(bytes, pos, hdr, enc_elems(a));
            lemma_bytes_at(bytes, pos, hdr);
            assert(bytes[pos + 0] == hdr[0] && hdr[0] == TAG_ARR);
            assert forall|j: int| 0 <= j < 4 implies bytes[pos + 1 + j] == #[trigger] be32(x)[j] by {
                assert(bytes[pos + (1 + j)] == hdr[1 + j]);
                assert(hdr[1 + j] == be32(x)[j]);
            }
            lemma_be32_at(bytes, pos + 1, x);
            assert(be32_at(bytes, pos + 1) as int == a.len());
            lemma_dec_enc_elems(bytes, pos + 5, a);
        },
        PayloadV::Dict(m) => {
            let x = m.len() as u32;
            let hdr = seq![TAG_MAP] + be32(x);
            assert(hdr.len() == 5);
            assert(enc(p) =~= hdr + enc_entries(m));
            lemma_split(bytes, pos, hdr, enc_entries(m));
            lemma_bytes_at(bytes, pos, hdr);
            assert(bytes[pos + 0] == hdr[0] && hdr[0] == TAG_MAP);
            assert forall|j: int| 0 <= j < 4 implies bytes[pos + 1 + j] == #[trigger] be32(x)[j] by {
                assert(bytes[pos + (1 + j)] == hdr[1 + j]);
                assert(hdr[1 + j] == be32(x)[j]);
            }
            lemma_be32_at(bytes, pos + 1, x);
            assert(be32_at(bytes, pos + 1) as int == m.len());
            lemma_dec_enc_entries(bytes, pos + 5, m);
        },
    }
}

/// Element-wise round trip for the body of an encoded sequence.
pub proof fn lemma_dec_enc_elems(bytes: Seq<u8>, pos: int, a: Seq<PayloadV>)
    requires
        forall|i: int| 0 <= i < a.len() ==> wf(#[trigger] a[i]),
        0 <= pos,
        pos + enc_elems(a).len() <= bytes.len(),
        bytes.subrange(pos, pos + enc_elems(a).len()) == enc_elems(a),
    ensures
        dec_elems(bytes, pos, a.len() as int) == Some((a, pos + enc_elems(a).len())),
    decreases a,
{
    if a.len() == 0 {
        assert(a =~= Seq::<PayloadV>::empty());
    } else {
        let e1 = enc(a[0]);
        let e2 = enc_elems(a.drop_first());
        assert(enc_elems(a) == e1 + e2);
        lemma_split(bytes, pos, e1, e2);
        lemma_enc_len(a[0]);
        lemma_dec_enc(bytes, pos, a[0]);
        let pos2 = pos + e1.len();
        lemma_dec_enc_elems(bytes, pos2, a.drop_first());
        assert(a.drop_first().len() as int == a.len() as int - 1);
        assert(seq![a[0]] + a.drop_first() =~= a);
    }
}

/// Pair-wise round trip for the body of an encoded mapping.
pub proof fn lemma_dec_enc_entries(bytes: Seq<u8>, pos: int, m: Seq<(Seq<u8>, PayloadV)>)
    requires
        forall|i: int| 0 <= i < m.len() ==> (#[trigger] m[i]).0.len() < 0x1_0000_0000 && wf(m[i].1),
        0 <= pos,
        pos + enc_entries(m).len() <= bytes.len(),
        bytes.subrange(pos, pos + enc_entries(m).len()) == enc_entries(m),
    ensures
        dec_entries(bytes, pos, m.len() as int) == Some((m, pos + enc_entries(m).len())),
    decreases m,
{
    if m.len() == 0 {
        assert(m =~= Seq::<(Seq<u8>, PayloadV)>::empty());
    } else {
        let ek = enc_key(m[0].0);
        let ev = enc(m[0].1);
        let e2 = enc_entries(m.drop_first());
        assert(enc_entries(m) == ek + ev + e2);
        assert(enc_entries(m) =~= ek + (ev + e2));
        lemma_split(bytes, pos, ek, ev + e2);
        lemma_dec_key(bytes, pos, m[0].0);
        let pos1 = pos + ek.len();
        lemma_split(bytes, pos1, ev, e2);
        lemma_dec_enc(bytes, pos1, m[0].1);
        lemma_enc_len(m[0].1);
        let pos2 = pos1 + ev.len();
        lemma_dec_enc_entries(bytes, pos2, m.drop_first());
        assert(m.drop_first().len() as int == m.len() as int - 1);
        assert(seq![m[0]] + m.drop_first() =~= m);
    }
}

/// Encodes a payload into a fresh buffer, or nothing if the payload is
/// outside the well-formed model.
pub fn payload_to_bytes(p: &Payload) -> (r: Option<Vec<u8>>)
    ensures
        match r {
            Some(b) => wf(p@) && b@ == enc(p@),
            None => !wf(p@),
        },
{
    if !crate::payload::payload_wf(p) {
        return None;
    }
    let mut out: Vec<u8> = Vec::new();
    encode_payload(p, &mut out);
    Some(out)
}

} // verus!
