//! The binary codec: a self-describing byte encoding of fully-materialized
//! values, and its recursive-descent decoder.
//!
//! Wire format (all multi-byte integers big-endian): a `Blob` is tag `0x00`,
//! an 8-byte length, then the raw bytes; a `Sum` is tag `0x01`, a 4-byte
//! discriminant, then the encoded inner value; a `Product` is tag `0x02`, a
//! 4-byte count, then that many encoded children, concatenated.

use crate::bytes_be::push_u32_be;
use crate::bytes_be::push_u64_be;
use crate::bytes_be::read_u32_be;
use crate::bytes_be::read_u64_be;
use crate::bytes_be::spec_u32_be;
use crate::bytes_be::spec_u32_of_be;
use crate::bytes_be::spec_u64_be;
use crate::bytes_be::spec_u64_of_be;
use crate::FullValue;
use crate::ValueModel;
use crate::full_view_seq;
use crate::lemma_full_view_seq;
use vstd::prelude::*;

verus! {

/// Why decoding failed.
#[derive(Debug, Clone, Copy, PartialEq, Eq, Structural)]
pub enum DecodeError {
    /// A byte outside 0, 1, 2 was read where a variant tag was expected.
    MalformedTag,
    /// The input ended before a required field could be fully read.
    Truncated,
    /// Decoding succeeded structurally, but this many bytes remained
    /// unconsumed after the top-level value.
    TrailingBytes(usize),
}

/// Whether a value fits the wire format's fixed-width fields: every blob is
/// at most `u64::MAX` bytes long and every product has at most `u32::MAX`
/// children.
pub open spec fn wire_fits(v: ValueModel) -> bool
    decreases v,
{
    match v {
        ValueModel::Blob(b) => b.len() <= u64::MAX,
        ValueModel::Sum(_d, inner) => wire_fits(*inner),
        ValueModel::Product(inners) => inners.len() <= u32::MAX && wire_fits_seq(inners),
    }
}

pub open spec fn wire_fits_seq(s: Seq<ValueModel>) -> bool
    decreases s,
{
    forall|i: int| 0 <= i < s.len() ==> wire_fits(#[trigger] s[i])
}

/// The byte encoding of a value.
pub open spec fn spec_encoding(v: ValueModel) -> Seq<u8>
    recommends
        wire_fits(v),
    decreases v,
{
    match v {
        ValueModel::Blob(b) => seq![0u8] + spec_u64_be(b.len() as u64) + b,
        ValueModel::Sum(d, inner) => seq![1u8] + spec_u32_be(d) + spec_encoding(*inner),
        ValueModel::Product(inners) => seq![2u8] + spec_u32_be(inners.len() as u32)
            + spec_encoding_seq(inners),
    }
}

/// The concatenation, in sequence order, of each child's encoding.
pub open spec fn spec_encoding_seq(s: Seq<ValueModel>) -> Seq<u8>
    decreases s,
{
    if s.len() == 0 {
        Seq::empty()
    } else {
        spec_encoding(s[0]) + spec_encoding_seq(s.drop_first())
    }
}

/// The exact number of bytes the encoding of a value takes: 1 tag byte,
/// plus 8 + len for a blob, 4 + the inner size for a sum, and 4 + the
/// children's sizes for a product.
pub open spec fn spec_size(v: ValueModel) -> nat
    decreases v,
{
    match v {
        ValueModel::Blob(b) => 9 + b.len(),
        ValueModel::Sum(_d, inner) => 5 + spec_size(*inner),
        ValueModel::Product(inners) => 5 + spec_size_seq(inners),
    }
}

pub open spec fn spec_size_seq(s: Seq<ValueModel>) -> nat
    decreases s,
{
    if s.len() == 0 {
        0
    } else {
        spec_size(s[0]) + spec_size_seq(s.drop_first())
    }
}

/// Encoding a concatenation of children encodes each in order.
pub proof fn lemma_encoding_seq_concat(a: Seq<ValueModel>, b: Seq<ValueModel>)
    ensures
        spec_encoding_seq(a + b) == spec_encoding_seq(a) + spec_encoding_seq(b),
    decreases a.len(),
{
    if a.len() == 0 {
        assert(a + b =~= b);
        assert(spec_encoding_seq(a) + spec_encoding_seq(b) =~= spec_encoding_seq(b));
    } else {
        assert((a + b).drop_first() =~= a.drop_first() + b);
        lemma_encoding_seq_concat(a.drop_first(), b);
        assert(spec_encoding_seq(a + b) =~= spec_encoding_seq(a) + spec_encoding_seq(b));
    }
}

/// The size of a concatenation of children is the sum of their sizes.
pub proof fn lemma_size_seq_concat(a: Seq<ValueModel>, b: Seq<ValueModel>)
    ensures
        spec_size_seq(a + b) == spec_size_seq(a) + spec_size_seq(b),
    decreases a.len(),
{
    if a.len() == 0 {
        assert(a + b =~= b);
    } else {
        assert((a + b).drop_first() =~= a.drop_first() + b);
        lemma_size_seq_concat(a.drop_first(), b);
    }
}

/// The encoded size is exactly the length of the encoding.
pub proof fn lemma_size_is_encoding_len(v: ValueModel)
    ensures
        spec_size(v) == spec_encoding(v).len(),
    decreases v,
{
    match v {
        ValueModel::Blob(_b) => {},
        ValueModel::Sum(_d, inner) => {
            lemma_size_is_encoding_len(*inner);
        },
        ValueModel::Product(inners) => {
            lemma_size_seq_is_encoding_len(inners);
        },
    }
}

pub proof fn lemma_size_seq_is_encoding_len(s: Seq<ValueModel>)
    ensures
        spec_size_seq(s) == spec_encoding_seq(s).len(),
    decreases s,
{
    if s.len() > 0 {
        lemma_size_is_encoding_len(s[0]);
        lemma_size_seq_is_encoding_len(s.drop_first());
    }
}

impl FullValue {
    /// Encodes this value into a fresh buffer, preallocated to the exact
    /// encoded size.
    pub fn serialize(&self) -> (r: Vec<u8>)
        requires
            wire_fits(self@),
            spec_size(self@) <= usize::MAX,
        ensures
            r@ == spec_encoding(self@),
    {
        let mut v: Vec<u8> = Vec::with_capacity(self.size());
        self.serialize_into(&mut v);
        proof {
            assert(v@ =~= spec_encoding(self@));
        }
        v
    }

    /// Appends the encoding of this value to `w`.
    #[verifier::loop_isolation(false)]
    pub fn serialize_into(&self, w: &mut Vec<u8>)
        requires
            wire_fits(self@),
        ensures
            final(w)@ == old(w)@ + spec_encoding(self@),
        decreases self,
    {
        match self {
            FullValue::Blob(v) => {
                w.push(0);
                let len = v.len() as u64;
                push_u64_be(w, len);
                let mut k: usize = 0;
                while k < v.len()
                    invariant
                        k <= v@.len(),
                        w@ == old(w)@ + seq![0u8] + spec_u64_be(v@.len() as u64) + v@.take(
                            k as int,
                        ),
                    decreases v@.len() - k,
                {
                    w.push(v[k]);
                    proof {
                        assert(v@.take(k + 1) =~= v@.take(k as int).push(v@[k as int]));
                    }
                    k += 1;
                }
                proof {
                    assert(v@.take(v@.len() as int) =~= v@);
                    assert(w@ =~= old(w)@ + spec_encoding(self@));
                }
            },
            FullValue::Sum(discrim, inner) => {
                w.push(1);
                push_u32_be(w, *discrim);
                inner.serialize_into(w);
                proof {
                    assert(w@ =~= old(w)@ + spec_encoding(self@));
                }
            },
            FullValue::Product(inners) => {
                let ghost vs = full_view_seq(inners@);
                proof {
                    lemma_full_view_seq(inners@);
                }
                w.push(2);
                let n = inners.len() as u32;
                push_u32_be(w, n);
                let mut i: usize = 0;
                while i < inners.len()
                    invariant
                        i <= inners@.len(),
                        w@ == old(w)@ + seq![2u8] + spec_u32_be(inners@.len() as u32)
                            + spec_encoding_seq(vs.take(i as int)),
                    decreases inners@.len() - i,
                {
                    proof {
                        assert(decreases_to!(*self => (*self)->Product_0));
                        assert((*self)->Product_0 == *inners);
                        assert(decreases_to!(*inners => (*inners)[i as int]));
                        assert(vs[i as int] == inners@[i as int]@);
                        assert(self@ == ValueModel::Product(vs));
                        assert(wire_fits_seq(vs));
                        assert(wire_fits(vs[i as int]));
                    }
                    inners[i].serialize_into(w);
                    proof {
                        assert(vs.take(i + 1) =~= vs.take(i as int) + seq![vs[i as int]]);
                        lemma_encoding_seq_concat(vs.take(i as int), seq![vs[i as int]]);
                        assert(seq![vs[i as int]][0] == vs[i as int]);
                        assert(seq![vs[i as int]].drop_first() =~= Seq::empty());
                        assert(spec_encoding_seq(Seq::<ValueModel>::empty()) =~= Seq::<u8>::empty());
                        assert(spec_encoding_seq(seq![vs[i as int]]) =~= spec_encoding(
                            vs[i as int],
                        ));
                        assert(w@ =~= old(w)@ + seq![2u8] + spec_u32_be(inners@.len() as u32)
                            + spec_encoding_seq(vs.take(i + 1)));
                    }
                    i += 1;
                }
                proof {
                    assert(vs.take(inners@.len() as int) =~= vs);
                    assert(w@ =~= old(w)@ + spec_encoding(self@));
                }
            },
        }
    }

    /// The exact number of bytes `serialize` produces for this value.
    #[verifier::loop_isolation(false)]
    pub fn size(&self) -> (r: usize)
        requires
            spec_size(self@) <= usize::MAX,
        ensures
            r == spec_size(self@),
        decreases self,
    {
        match self {
            FullValue::Blob(v) => 1 + 8 + v.len(),
            FullValue::Sum(_discrim, inner) => 1 + 4 + inner.size(),
            FullValue::Product(inners) => {
                let ghost vs = full_view_seq(inners@);
                proof {
                    lemma_full_view_seq(inners@);
                }
                let mut sub: usize = 0;
                let mut i: usize = 0;
                while i < inners.len()
                    invariant
                        i <= inners@.len(),
                        sub == spec_size_seq(vs.take(i as int)),
                    decreases inners@.len() - i,
                {
                    proof {
                        assert(decreases_to!(*self => (*self)->Product_0));
                        assert((*self)->Product_0 == *inners);
                        assert(decreases_to!(*inners => (*inners)[i as int]));
                        assert(vs[i as int] == inners@[i as int]@);
                        assert(vs.take(i + 1) =~= vs.take(i as int) + seq![vs[i as int]]);
                        lemma_size_seq_concat(vs.take(i as int), seq![vs[i as int]]);
                        assert(seq![vs[i as int]][0] == vs[i as int]);
                        assert(seq![vs[i as int]].drop_first() =~= Seq::empty());
                        assert(spec_size_seq(Seq::<ValueModel>::empty()) == 0);
                        assert(spec_size_seq(seq![vs[i as int]]) == spec_size(vs[i as int]));
                        assert(vs =~= vs.take(i + 1) + vs.skip(i + 1));
                        lemma_size_seq_concat(vs.take(i + 1), vs.skip(i + 1));
                    }
                    sub = sub + inners[i].size();
                    i += 1;
                }
                proof {
                    assert(vs.take(inners@.len() as int) =~= vs);
                }
                sub + 4 + 1
            },
        }
    }
}

/// What parsing one value at the head of `s` yields: the parsed value and
/// the number of bytes consumed, or the reason it failed. The decoder reads
/// one tag byte and dispatches on it; any tag byte outside 0, 1, 2 is
/// malformed, and input that ends inside any field is truncated.
pub open spec fn spec_parse(s: Seq<u8>) -> Result<(ValueModel, nat), DecodeError>
    decreases s.len(), 0nat, 0nat,
{
    if s.len() < 1 {
        Err(DecodeError::Truncated)
    } else if s[0] == 0 {
        if s.len() < 9 {
            Err(DecodeError::Truncated)
        } else {
            let len: u64 = spec_u64_of_be(s.subrange(1, 9));
            if s.len() < 9 + len {
                Err(DecodeError::Truncated)
            } else {
                Ok((ValueModel::Blob(s.subrange(9, 9 + len)), (9 + len) as nat))
            }
        }
    } else if s[0] == 1 {
        if s.len() < 5 {
            Err(DecodeError::Truncated)
        } else {
            let d: u32 = spec_u32_of_be(s.subrange(1, 5));
            match spec_parse(s.skip(5)) {
                Ok((v, c)) => Ok((ValueModel::Sum(d, Box::new(v)), 5 + c)),
                Err(e) => Err(e),
            }
        }
    } else if s[0] == 2 {
        if s.len() < 5 {
            Err(DecodeError::Truncated)
        } else {
            let n: u32 = spec_u32_of_be(s.subrange(1, 5));
            match spec_parse_seq(s.skip(5), n as nat) {
                Ok((vs, c)) => Ok((ValueModel::Product(vs), 5 + c)),
                Err(e) => Err(e),
            }
        }
    } else {
        Err(DecodeError::MalformedTag)
    }
}

/// What parsing `n` consecutive values at the head of `s` yields.
pub open spec fn spec_parse_seq(s: Seq<u8>, n: nat) -> Result<(Seq<ValueModel>, nat), DecodeError>
    decreases s.len(), 1nat, n,
{
    if n == 0 {
        Ok((Seq::empty(), 0))
    } else {
        match spec_parse(s) {
            Ok((v, c)) => {
                let s2 = if c <= s.len() { s.skip(c as int) } else { Seq::empty() };
                match spec_parse_seq(s2, (n - 1) as nat) {
                    Ok((vs, c2)) => Ok((seq![v] + vs, c + c2)),
                    Err(e) => Err(e),
                }
            },
            Err(e) => Err(e),
        }
    }
}

/// A successful parse never consumes more bytes than the input holds.
pub proof fn lemma_parse_consumes_at_most(s: Seq<u8>)
    ensures
        spec_parse(s) matches Ok(pr) ==> pr.1 <= s.len(),
    decreases s.len(), 0nat, 0nat,
{
    if s.len() >= 1 && s[0] == 1 && s.len() >= 5 {
        lemma_parse_consumes_at_most(s.skip(5));
    }
    if s.len() >= 1 && s[0] == 2 && s.len() >= 5 {
        let n: u32 = spec_u32_of_be(s.subrange(1, 5));
        lemma_parse_seq_consumes_at_most(s.skip(5), n as nat);
    }
}

/// A successful parse of `n` values never consumes more bytes than the
/// input holds, and yields exactly `n` values.
pub proof fn lemma_parse_seq_consumes_at_most(s: Seq<u8>, n: nat)
    ensures
        spec_parse_seq(s, n) matches Ok(pr) ==> pr.1 <= s.len() && pr.0.len() == n,
    decreases s.len(), 1nat, n,
{
    if n > 0 {
        lemma_parse_consumes_at_most(s);
        if let Ok((v, c)) = spec_parse(s) {
            let s2 = if c <= s.len() { s.skip(c as int) } else { Seq::empty() };
            lemma_parse_seq_consumes_at_most(s2, (n - 1) as nat);
        }
    }
}

/// What decoding a whole buffer yields: the single value it encodes, or the
/// first failure; if a value is parsed but bytes remain, the count of the
/// remaining bytes.
pub open spec fn spec_deserialize(s: Seq<u8>) -> Result<ValueModel, DecodeError> {
    match spec_parse(s) {
        Ok((v, c)) => if c == s.len() {
            Ok(v)
        } else {
            Err(DecodeError::TrailingBytes((s.len() - c) as usize))
        },
        Err(e) => Err(e),
    }
}

/// Parses one value starting at `pos`, returning it with the position just
/// past its encoding.
#[verifier::loop_isolation(false)]
fn parse_value(bytes: &[u8], pos: usize) -> (r: Result<(FullValue, usize), DecodeError>)
    requires
        pos <= bytes@.len(),
    ensures
        match r {
            Ok(pr) => pos <= pr.1 <= bytes@.len() && spec_parse(bytes@.skip(pos as int)) == Ok::<
                (ValueModel, nat),
                DecodeError,
            >((pr.0@, (pr.1 - pos) as nat)),
            Err(e) => spec_parse(bytes@.skip(pos as int)) == Err::<
                (ValueModel, nat),
                DecodeError,
            >(e),
        },
    decreases bytes@.len() - pos,
{
    let ghost s = bytes@.skip(pos as int);
    if bytes.len() - pos < 1 {
        return Err(DecodeError::Truncated);
    }
    let tag = bytes[pos];
    proof {
        assert(s[0] == bytes@[pos as int]);
    }
    if tag == 0 {
        if bytes.len() - pos < 9 {
            return Err(DecodeError::Truncated);
        }
        let len64 = read_u64_be(bytes, pos + 1);
        proof {
            assert(s.subrange(1, 9) =~= bytes@.subrange(pos + 1 as int, pos + 9 as int));
        }
        if ((bytes.len() - pos - 9) as u64) < len64 {
            return Err(DecodeError::Truncated);
        }
        let len = len64 as usize;
        let payload = vstd::slice::slice_to_vec(
            vstd::slice::slice_subrange(bytes, pos + 9, pos + 9 + len),
        );
        proof {
            assert(s.subrange(9, 9 + len64 as int) =~= bytes@.subrange(
                pos + 9 as int,
                pos + 9 + len64 as int,
            ));
        }
        Ok((FullValue::Blob(payload), pos + 9 + len))
    } else if tag == 1 {
        if bytes.len() - pos < 5 {
            return Err(DecodeError::Truncated);
        }
        let d = read_u32_be(bytes, pos + 1);
        proof {
            assert(s.subrange(1, 5) =~= bytes@.subrange(pos + 1 as int, pos + 5 as int));
            assert(s.skip(5) =~= bytes@.skip(pos + 5 as int));
        }
        match parse_value(bytes, pos + 5) {
            Ok((inner, end)) => Ok((FullValue::Sum(d, Box::new(inner)), end)),
            Err(e) => Err(e),
        }
    } else if tag == 2 {
        if bytes.len() - pos < 5 {
            return Err(DecodeError::Truncated);
        }
        let n = read_u32_be(bytes, pos + 1);
        proof {
            assert(s.subrange(1, 5) =~= bytes@.subrange(pos + 1 as int, pos + 5 as int));
            assert(s.skip(5) =~= bytes@.skip(pos + 5 as int));
        }
        let ghost s5 = bytes@.skip(pos + 5 as int);
        let mut items: Vec<FullValue> = Vec::new();
        let mut cur = pos + 5;
        let mut i: u32 = 0;
        while i < n
            invariant
                pos + 5 <= cur <= bytes@.len(),
                i <= n,
                items@.len() == i,
                ({
                    let tail = spec_parse_seq(bytes@.skip(cur as int), (n - i) as nat);
                    let whole = spec_parse_seq(s5, n as nat);
                    match tail {
                        Ok(t) => whole == Ok::<(Seq<ValueModel>, nat), DecodeError>(
                            (full_view_seq(items@) + t.0, ((cur - pos - 5) as nat + t.1) as nat),
                        ),
                        Err(e) => whole == Err::<(Seq<ValueModel>, nat), DecodeError>(e),
                    }
                }),
            decreases n - i,
        {
            proof {
                lemma_full_view_seq(items@);
            }
            match parse_value(bytes, cur) {
                Ok((v, end)) => {
                    proof {
                        let scur = bytes@.skip(cur as int);
                        lemma_parse_consumes_at_most(scur);
                        assert(scur.skip((end - cur) as int) =~= bytes@.skip(end as int));
                        let tail2 = spec_parse_seq(bytes@.skip(end as int), (n - i - 1) as nat);
                        lemma_full_view_seq(items@.push(v));
                        match tail2 {
                            Ok(t2) => {
                                assert(full_view_seq(items@) + (seq![v@] + t2.0) =~= full_view_seq(
                                    items@.push(v),
                                ) + t2.0);
                            },
                            Err(_e) => {},
                        }
                    }
                    items.push(v);
                    cur = end;
                },
                Err(e) => {
                    return Err(e);
                },
            }
            i += 1;
        }
        proof {
            assert(spec_parse_seq(bytes@.skip(cur as int), 0) == Ok::<
                (Seq<ValueModel>, nat),
                DecodeError,
            >((Seq::empty(), 0)));
            assert(full_view_seq(items@) + Seq::<ValueModel>::empty() =~= full_view_seq(items@));
            lemma_full_view_seq(items@);
        }
        Ok((FullValue::Product(items), cur))
    } else {
        Err(DecodeError::MalformedTag)
    }
}

impl FullValue {
    /// Decodes a whole buffer as one value, rejecting malformed tags,
    /// truncated input, and trailing bytes.
    pub fn deserialize(r: &[u8]) -> (res: Result<FullValue, DecodeError>)
        ensures
            match res {
                Ok(v) => spec_deserialize(r@) == Ok::<ValueModel, DecodeError>(v@),
                Err(e) => spec_deserialize(r@) == Err::<ValueModel, DecodeError>(e),
            },
    {
        proof {
            assert(r@.skip(0) =~= r@);
        }
        match parse_value(r, 0) {
            Ok((v, end)) => {
                if end == r.len() {
                    Ok(v)
                } else {
                    Err(DecodeError::TrailingBytes(r.len() - end))
                }
            },
            Err(e) => Err(e),
        }
    }
}


/// In a non-empty child list, the head fits the wire and so does the rest.
proof fn lemma_wire_fits_seq_head(s: Seq<ValueModel>)
    requires
        wire_fits_seq(s),
        s.len() > 0,
    ensures
        wire_fits(s[0]),
        wire_fits_seq(s.drop_first()),
{
    assert forall|i: int| 0 <= i < s.drop_first().len() implies wire_fits(
        #[trigger] s.drop_first()[i],
    ) by {
        assert(s.drop_first()[i] == s[i + 1]);
    }
}

/// Parsing an encoding, with anything after it, yields the encoded value
/// back and consumes exactly the encoding.
pub proof fn lemma_encoding_parses(v: ValueModel, rest: Seq<u8>)
    requires
        wire_fits(v),
    ensures
        spec_parse(spec_encoding(v) + rest) == Ok::<(ValueModel, nat), DecodeError>(
            (v, spec_encoding(v).len() as nat),
        ),
    decreases v,
{
    let t = spec_encoding(v) + rest;
    match v {
        ValueModel::Blob(b) => {
            assert(t[0] == 0);
            assert(t.subrange(1, 9) =~= spec_u64_be(b.len() as u64));
            crate::bytes_be::lemma_u64_be_of_be(b.len() as u64);
            assert(t.subrange(9, 9 + b.len() as int) =~= b);
        },
        ValueModel::Sum(d, inner) => {
            assert(t[0] == 1);
            assert(t.subrange(1, 5) =~= spec_u32_be(d));
            crate::bytes_be::lemma_u32_be_of_be(d);
            assert(t.skip(5) =~= spec_encoding(*inner) + rest);
            lemma_encoding_parses(*inner, rest);
        },
        ValueModel::Product(inners) => {
            assert(t[0] == 2);
            assert(t.subrange(1, 5) =~= spec_u32_be(inners.len() as u32));
            crate::bytes_be::lemma_u32_be_of_be(inners.len() as u32);
            assert(t.skip(5) =~= spec_encoding_seq(inners) + rest);
            lemma_encoding_seq_parses(inners, rest);
        },
    }
}

/// Parsing the concatenated encodings of a child list, with anything after
/// them, yields the children back.
pub proof fn lemma_encoding_seq_parses(s: Seq<ValueModel>, rest: Seq<u8>)
    requires
        wire_fits_seq(s),
    ensures
        spec_parse_seq(spec_encoding_seq(s) + rest, s.len()) == Ok::<
            (Seq<ValueModel>, nat),
            DecodeError,
        >((s, spec_encoding_seq(s).len() as nat)),
    decreases s,
{
    let t = spec_encoding_seq(s) + rest;
    if s.len() == 0 {
        assert(s =~= Seq::<ValueModel>::empty());
    } else {
        let v0 = s[0];
        let tail = s.drop_first();
        let e0 = spec_encoding(v0);
        lemma_wire_fits_seq_head(s);
        assert(t =~= e0 + (spec_encoding_seq(tail) + rest));
        lemma_encoding_parses(v0, spec_encoding_seq(tail) + rest);
        assert(t.skip(e0.len() as int) =~= spec_encoding_seq(tail) + rest);
        lemma_encoding_seq_parses(tail, rest);
        assert(seq![v0] + tail =~= s);
    }
}

/// Round-trip: decoding the encoding of any value yields that value back.
pub proof fn lemma_round_trip(v: ValueModel)
    requires
        wire_fits(v),
    ensures
        spec_deserialize(spec_encoding(v)) == Ok::<ValueModel, DecodeError>(v),
{
    lemma_encoding_parses(v, Seq::empty());
    assert(spec_encoding(v) + Seq::<u8>::empty() =~= spec_encoding(v));
}

/// Trailing-byte rejection: decoding an encoding followed by any non-empty
/// suffix fails, reporting exactly the count of the extra bytes.
pub proof fn lemma_trailing_bytes_rejected(v: ValueModel, extra: Seq<u8>)
    requires
        wire_fits(v),
        extra.len() > 0,
        extra.len() <= usize::MAX,
    ensures
        spec_deserialize(spec_encoding(v) + extra) == Err::<ValueModel, DecodeError>(
            DecodeError::TrailingBytes(extra.len() as usize),
        ),
{
    lemma_encoding_parses(v, extra);
}

/// Truncation rejection: decoding any strict prefix of an encoding fails
/// as truncated.
pub proof fn lemma_truncation_rejected(v: ValueModel, p: Seq<u8>)
    requires
        wire_fits(v),
        p.len() < spec_encoding(v).len(),
        p == spec_encoding(v).take(p.len() as int),
    ensures
        spec_parse(p) == Err::<(ValueModel, nat), DecodeError>(DecodeError::Truncated),
        spec_deserialize(p) == Err::<ValueModel, DecodeError>(DecodeError::Truncated),
    decreases v,
{
    let e = spec_encoding(v);
    if p.len() > 0 {
        assert(p[0] == e[0]);
        match v {
            ValueModel::Blob(b) => {
                assert(e[0] == 0);
                if p.len() >= 9 {
                    assert(p.subrange(1, 9) =~= spec_u64_be(b.len() as u64));
                    crate::bytes_be::lemma_u64_be_of_be(b.len() as u64);
                }
            },
            ValueModel::Sum(_d, inner) => {
                assert(e[0] == 1);
                if p.len() >= 5 {
                    let p2 = p.skip(5);
                    assert(p2 =~= spec_encoding(*inner).take(p2.len() as int));
                    lemma_truncation_rejected(*inner, p2);
                }
            },
            ValueModel::Product(inners) => {
                assert(e[0] == 2);
                if p.len() >= 5 {
                    assert(p.subrange(1, 5) =~= spec_u32_be(inners.len() as u32));
                    crate::bytes_be::lemma_u32_be_of_be(inners.len() as u32);
                    let p2 = p.skip(5);
                    assert(p2 =~= spec_encoding_seq(inners).take(p2.len() as int));
                    lemma_truncation_rejected_seq(inners, p2);
                }
            },
        }
    }
}

/// A strict prefix of a child list's concatenated encodings parses as
/// truncated, for the list's own count.
proof fn lemma_truncation_rejected_seq(s: Seq<ValueModel>, p: Seq<u8>)
    requires
        wire_fits_seq(s),
        p.len() < spec_encoding_seq(s).len(),
        p == spec_encoding_seq(s).take(p.len() as int),
    ensures
        spec_parse_seq(p, s.len()) == Err::<(Seq<ValueModel>, nat), DecodeError>(
            DecodeError::Truncated,
        ),
    decreases s,
{
    let v0 = s[0];
    let tail = s.drop_first();
    let e0 = spec_encoding(v0);
    lemma_wire_fits_seq_head(s);
    lemma_size_is_encoding_len(v0);
    assert(e0.len() >= 5);
    if p.len() < e0.len() {
        assert(p =~= e0.take(p.len() as int));
        lemma_truncation_rejected(v0, p);
    } else if p.len() == e0.len() {
        assert(p =~= e0);
        lemma_encoding_parses(v0, Seq::empty());
        assert(e0 + Seq::<u8>::empty() =~= e0);
        assert(p.skip(e0.len() as int) =~= Seq::<u8>::empty());
        if tail.len() == 0 {
            assert(spec_encoding_seq(tail).len() == 0);
            assert(false);
        }
        assert(spec_parse(p) == Ok::<(ValueModel, nat), DecodeError>((v0, e0.len() as nat)));
        assert(spec_parse(Seq::<u8>::empty()) == Err::<(ValueModel, nat), DecodeError>(
            DecodeError::Truncated,
        ));
        assert(spec_parse_seq(Seq::<u8>::empty(), tail.len()) == Err::<
            (Seq<ValueModel>, nat),
            DecodeError,
        >(DecodeError::Truncated));
    } else {
        let p2 = p.skip(e0.len() as int);
        assert(p =~= e0 + p2);
        lemma_encoding_parses(v0, p2);
        assert(p2 =~= spec_encoding_seq(tail).take(p2.len() as int));
        lemma_truncation_rejected_seq(tail, p2);
    }
}


/// A successful parse yields a value that fits the wire format and whose
/// encoding is exactly the bytes it consumed.
pub proof fn lemma_parse_sound(s: Seq<u8>)
    ensures
        spec_parse(s) matches Ok(pr) ==> {
            &&& pr.1 <= s.len()
            &&& wire_fits(pr.0)
            &&& spec_encoding(pr.0) == s.take(pr.1 as int)
        },
    decreases s.len(), 0nat, 0nat,
{
    lemma_parse_consumes_at_most(s);
    if s.len() >= 1 && s[0] == 0 && s.len() >= 9 {
        let len: u64 = spec_u64_of_be(s.subrange(1, 9));
        if s.len() >= 9 + len {
            crate::bytes_be::lemma_u64_of_be_be(s.subrange(1, 9));
            assert(spec_encoding(ValueModel::Blob(s.subrange(9, 9 + len))) =~= s.take(
                9 + len as int,
            ));
        }
    }
    if s.len() >= 1 && s[0] == 1 && s.len() >= 5 {
        let d: u32 = spec_u32_of_be(s.subrange(1, 5));
        lemma_parse_sound(s.skip(5));
        if let Ok((v, c)) = spec_parse(s.skip(5)) {
            crate::bytes_be::lemma_u32_of_be_be(s.subrange(1, 5));
            assert(spec_encoding(ValueModel::Sum(d, Box::new(v))) =~= s.take(5 + c as int));
        }
    }
    if s.len() >= 1 && s[0] == 2 && s.len() >= 5 {
        let n: u32 = spec_u32_of_be(s.subrange(1, 5));
        lemma_parse_seq_sound(s.skip(5), n as nat);
        if let Ok((vs, c)) = spec_parse_seq(s.skip(5), n as nat) {
            crate::bytes_be::lemma_u32_of_be_be(s.subrange(1, 5));
            assert(vs.len() as u32 == n);
            assert(spec_encoding(ValueModel::Product(vs)) =~= s.take(5 + c as int));
        }
    }
}

/// A successful parse of a child list yields children that fit the wire
/// format and whose concatenated encodings are exactly the bytes consumed.
pub proof fn lemma_parse_seq_sound(s: Seq<u8>, n: nat)
    ensures
        spec_parse_seq(s, n) matches Ok(pr) ==> {
            &&& pr.1 <= s.len()
            &&& pr.0.len() == n
            &&& wire_fits_seq(pr.0)
            &&& spec_encoding_seq(pr.0) == s.take(pr.1 as int)
        },
    decreases s.len(), 1nat, n,
{
    lemma_parse_seq_consumes_at_most(s, n);
    if n == 0 {
        assert(s.take(0) =~= Seq::<u8>::empty());
    } else {
        lemma_parse_sound(s);
        if let Ok((v, c)) = spec_parse(s) {
            let s2 = s.skip(c as int);
            lemma_parse_seq_sound(s2, (n - 1) as nat);
            if let Ok((vs, c2)) = spec_parse_seq(s2, (n - 1) as nat) {
                let all = seq![v] + vs;
                assert forall|i: int| 0 <= i < all.len() implies wire_fits(#[trigger] all[i]) by {
                    if i > 0 {
                        assert(all[i] == vs[i - 1]);
                    }
                }
                assert(all[0] == v);
                assert(all.drop_first() =~= vs);
                assert(s2.take(c2 as int) =~= s.take((c + c2) as int).skip(c as int));
                assert(spec_encoding_seq(all) =~= s.take((c + c2) as int));
            }
        }
    }
}

/// What `deserialize` accepts is precisely an encoding: a decoded value
/// fits the wire format, and encoding it again yields the very input.
pub proof fn lemma_deserialize_sound(s: Seq<u8>)
    ensures
        spec_deserialize(s) matches Ok(v) ==> wire_fits(v) && spec_encoding(v) == s,
{
    lemma_parse_sound(s);
    if let Ok((v, c)) = spec_parse(s) {
        if c == s.len() {
            assert(s.take(c as int) =~= s);
        }
    }
}

} // verus!
