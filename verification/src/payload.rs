//! The structured values carried inside wire envelopes.
//!
//! A payload is a dynamically-typed tree of nil, booleans, 64-bit
//! integers (signed, and unsigned for the values beyond the signed
//! range), byte strings, raw binary blobs, sequences and string-keyed
//! mappings.  Strings are held as their UTF-8 bytes.  The mathematical
//! model of a payload is [`PayloadV`], whose collections are `Seq`s.

use vstd::prelude::*;

verus! {

broadcast use vstd::std_specs::vec::group_vec_axioms;

/// An executable structured value.
#[derive(Debug, PartialEq, Eq)]
pub enum Payload {
    Nil,
    Bool(bool),
    Int(i64),
    /// An unsigned integer too large for `Int`; the canonical value for
    /// a wire integer above `i64::MAX`.
    UInt(u64),
    /// A text string, held as its UTF-8 bytes.
    Str(Vec<u8>),
    /// A raw binary blob, kept distinct from text on the wire.
    Bin(Vec<u8>),
    Arr(Vec<Payload>),
    Dict(Vec<(Vec<u8>, Payload)>),
}

/// The mathematical model of a [`Payload`].
#[verifier::ext_equal]
pub enum PayloadV {
    Nil,
    Bool(bool),
    Int(i64),
    UInt(u64),
    Str(Seq<u8>),
    Bin(Seq<u8>),
    Arr(Seq<PayloadV>),
    Dict(Seq<(Seq<u8>, PayloadV)>),
}

impl Payload {
    /// The model of this value: every vector becomes the sequence of the
    /// models of its elements.
    pub open spec fn deep(self) -> PayloadV
        decreases self,
    {
        match self {
            Payload::Nil => PayloadV::Nil,
            Payload::Bool(b) => PayloadV::Bool(b),
            Payload::Int(i) => PayloadV::Int(i),
            Payload::UInt(u) => PayloadV::UInt(u),
            Payload::Str(s) => PayloadV::Str(s@),
            Payload::Bin(s) => PayloadV::Bin(s@),
            Payload::Arr(v) => PayloadV::Arr(deep_seq(v@)),
            Payload::Dict(m) => PayloadV::Dict(deep_entries(m@)),
        }
    }
}

/// The models of a sequence of values, element by element.
pub open spec fn deep_seq(s: Seq<Payload>) -> Seq<PayloadV>
    decreases s,
{
    Seq::new(s.len(), |i: int| if 0 <= i < s.len() { s[i].deep() } else { PayloadV::Nil })
}

/// The models of a sequence of key/value pairs, pair by pair.
pub open spec fn deep_entries(s: Seq<(Vec<u8>, Payload)>) -> Seq<(Seq<u8>, PayloadV)>
    decreases s,
{
    Seq::new(
        s.len(),
        |i: int| if 0 <= i < s.len() { (s[i].0@, s[i].1.deep()) } else { (Seq::empty(), PayloadV::Nil) },
    )
}

/// Appending a value appends its model.
pub proof fn lemma_deep_seq_push(s: Seq<Payload>, x: Payload)
    ensures
        deep_seq(s.push(x)) == deep_seq(s).push(x.deep()),
{
    assert(deep_seq(s.push(x)) =~= deep_seq(s).push(x.deep()));
}

/// Appending a pair appends its model.
pub proof fn lemma_deep_entries_push(s: Seq<(Vec<u8>, Payload)>, x: (Vec<u8>, Payload))
    ensures
        deep_entries(s.push(x)) == deep_entries(s).push((x.0@, x.1.deep())),
{
    assert(deep_entries(s.push(x)) =~= deep_entries(s).push((x.0@, x.1.deep())));
}

impl View for Payload {
    type V = PayloadV;

    open spec fn view(&self) -> PayloadV {
        self.deep()
    }
}

/// A payload is well formed when every string, blob, sequence and mapping
/// in it is short enough for its length to be carried in the 32-bit length
/// field that the wire encoding uses, and every `UInt` really is beyond
/// the signed range (smaller wire integers always decode as `Int`, so
/// only such values round-trip).
pub open spec fn wf(p: PayloadV) -> bool
    decreases p,
{
    match p {
        PayloadV::Nil => true,
        PayloadV::Bool(_) => true,
        PayloadV::Int(_) => true,
        PayloadV::UInt(u) => u > i64::MAX,
        PayloadV::Str(s) => s.len() < 0x1_0000_0000,
        PayloadV::Bin(s) => s.len() < 0x1_0000_0000,
        PayloadV::Arr(a) => a.len() < 0x1_0000_0000 && (forall|i: int|
            0 <= i < a.len() ==> wf(#[trigger] a[i])),
        PayloadV::Dict(m) => m.len() < 0x1_0000_0000 && (forall|i: int|
            0 <= i < m.len() ==> (#[trigger] m[i]).0.len() < 0x1_0000_0000 && wf(m[i].1)),
    }
}

/// Whether an executable payload is well formed, decided at run time.
pub fn payload_wf(p: &Payload) -> (r: bool)
    ensures
        r == wf(p@),
    decreases *p,
{
    match p {
        Payload::Nil => true,
        Payload::Bool(_) => true,
        Payload::Int(_) => true,
        Payload::UInt(u) => *u > 0x7fff_ffff_ffff_ffffu64,
        Payload::Str(s) => (s.len() as u64) < 0x1_0000_0000u64,
        Payload::Bin(s) => (s.len() as u64) < 0x1_0000_0000u64,
        Payload::Arr(v) => {
            if (v.len() as u64) >= 0x1_0000_0000u64 {
                return false;
            }
            let mut i: usize = 0;
            while i < v.len()
                invariant
                    0 <= i <= v@.len(),
                    v@.len() < 0x1_0000_0000,
                    forall|j: int| 0 <= j < i ==> wf(#[trigger] p@->Arr_0[j]),
                    *p == Payload::Arr(*v),
                decreases v@.len() - i,
            {
                proof {
                    assert(decreases_to!(*p => *v));
                    vstd::std_specs::vec::axiom_vec_index_decreases(*v, i as int);
                    assert(decreases_to!(*v => v@[i as int]));
                }
                if !payload_wf(&v[i]) {
                    assert(!wf(p@->Arr_0[i as int]));
                    return false;
                }
                i += 1;
            }
            assert(forall|j: int| 0 <= j < v@.len() ==> wf(#[trigger] p@->Arr_0[j]));
            true
        },
        Payload::Dict(m) => {
            if (m.len() as u64) >= 0x1_0000_0000u64 {
                return false;
            }
            let mut i: usize = 0;
            while i < m.len()
                invariant
                    0 <= i <= m@.len(),
                    m@.len() < 0x1_0000_0000,
                    forall|j: int| 0 <= j < i ==> (#[trigger] p@->Dict_0[j]).0.len() < 0x1_0000_0000
                        && wf(p@->Dict_0[j].1),
                    *p == Payload::Dict(*m),
                decreases m@.len() - i,
            {
                if (m[i].0.len() as u64) >= 0x1_0000_0000u64 {
                    assert(p@->Dict_0[i as int].0 == m@[i as int].0@);
                    assert(!wf(p@));
                    return false;
                }
                proof {
                    assert(decreases_to!(*p => *m));
                    vstd::std_specs::vec::axiom_vec_index_decreases(*m, i as int);
                    assert(decreases_to!(*m => m@[i as int]));
                    assert(decreases_to!(m@[i as int] => m@[i as int].1));
                }
                if !payload_wf(&m[i].1) {
                    assert(p@->Dict_0[i as int].1 == m@[i as int].1.deep());
                    assert(!wf(p@));
                    return false;
                }
                i += 1;
            }
            assert(forall|j: int| 0 <= j < m@.len() ==> (#[trigger] p@->Dict_0[j]).0.len() < 0x1_0000_0000
                && wf(p@->Dict_0[j].1));
            true
        },
    }
}

} // verus!
