//! The content hash engine: a deterministic 32-byte digest for either tree
//! shape, such that a dehydrated tree and its fully-materialized counterpart
//! always hash identically.

use crate::bytes_be::spec_u32_be;
use crate::bytes_be::push_u32_be;
use crate::FragmentModel;
use crate::FullValue;
use crate::ValueFragment;
use crate::ValueModel;
use crate::full_view;
use crate::full_view_seq;
use crate::frag_view;
use crate::fragment_of;
use crate::fragment_of_seq;
use crate::lemma_fragment_of_seq;
use crate::frag_view_seq;
use crate::lemma_full_view_seq;
use crate::lemma_frag_view_seq;
use sha3::Digest;
use sha3::Sha3_256;
use vstd::prelude::*;
use vstd::string::StrSliceExecFns;
use vstd::string::StringExecFns;

verus! {

/// A 32-byte content digest: a value's identity.
#[derive(Clone, Copy, PartialEq, Eq, Debug)]
pub struct Hash(pub [u8; 32]);

impl View for Hash {
    type V = Seq<u8>;

    open spec fn view(&self) -> Seq<u8> {
        self.0@
    }
}

/// The SHA3-256 digest of a byte sequence. The digest depends on the input
/// bytes alone; its 32 bytes are not written out here, only named.
pub uninterp spec fn sha3_of(bytes: Seq<u8>) -> Seq<u8>;

impl Hash {
    /// Builds a hash from a slice that holds exactly 32 bytes.
    pub fn sure_from_slice(value: &[u8]) -> (h: Hash)
        requires
            value@.len() == 32,
        ensures
            h@ == value@,
    {
        let mut val: [u8; 32] = [0u8; 32];
        let mut i: usize = 0;
        while i < 32
            invariant
                i <= 32,
                value@.len() == 32,
                forall|j: int| 0 <= j < i ==> val@[j] == value@[j],
            decreases 32 - i,
        {
            val[i] = value[i];
            i += 1;
        }
        proof {
            assert(val@ =~= value@);
        }
        Hash(val)
    }

    /// Relies on `sha3::Sha3_256`: the result is the SHA3-256 digest of the
    /// input bytes, a 32-byte value that depends on the input alone.
    #[verifier::external_body]
    pub fn of(bytes: &[u8]) -> (h: Hash)
        ensures
            h@ == sha3_of(bytes@),
    {
        let mut val = [0u8; 32];
        val.copy_from_slice(Sha3_256::digest(bytes).as_slice());
        Hash(val)
    }

    /// The digest as a byte slice.
    pub fn as_bytes(&self) -> (r: &[u8])
        ensures
            r@ == self@,
    {
        self.0.as_slice()
    }

    /// The full diagnostic rendering: the whole digest in hex, prefixed with
    /// the hash algorithm.
    pub fn debug_string(&self) -> (r: String)
        ensures
            r@ == "sha-256:"@ + hex_of(self@),
    {
        let mut s = String::from_str("sha-256:");
        let enc = hex_encode(self.0.as_slice());
        s.append(enc.as_str());
        s
    }

    /// The short human-facing rendering: the first 4 bytes in hex, prefixed
    /// with `#`.
    pub fn display_string(&self) -> (r: String)
        ensures
            r@ == "#"@ + hex_of(self@.take(4)),
    {
        let mut s = String::from_str("#");
        let head = vstd::slice::slice_subrange(self.0.as_slice(), 0, 4);
        let enc = hex_encode(head);
        s.append(enc.as_str());
        proof {
            assert(self@.subrange(0, 4) =~= self@.take(4));
        }
        s
    }
}

/// The lowercase hex digit for a value below 16.
pub open spec fn hex_digit(n: u8) -> char
    recommends
        n < 16,
{
    seq!['0', '1', '2', '3', '4', '5', '6', '7', '8', '9', 'a', 'b', 'c', 'd', 'e', 'f'][n as int]
}

/// The lowercase hex rendering of a byte sequence: two digits per byte,
/// high nibble first.
pub open spec fn hex_of(bytes: Seq<u8>) -> Seq<char>
    decreases bytes,
{
    if bytes.len() == 0 {
        Seq::empty()
    } else {
        seq![hex_digit(bytes[0] / 16), hex_digit(bytes[0] % 16)] + hex_of(bytes.drop_first())
    }
}

/// Relies on `hex::encode`: each input byte becomes two lowercase hex
/// digits, high nibble first.
#[verifier::external_body]
fn hex_encode(bytes: &[u8]) -> (r: String)
    ensures
        r@ == hex_of(bytes@),
{
    hex::encode(bytes)
}

/// The content hash of a fully-materialized value. A blob is hashed over its
/// raw bytes; a sum over the big-endian discriminant followed by the inner
/// value's hash; a product over the concatenation of its children's hashes.
pub open spec fn hash_of(v: ValueModel) -> Seq<u8>
    decreases v,
{
    match v {
        ValueModel::Blob(b) => sha3_of(b),
        ValueModel::Sum(d, inner) => sha3_of(spec_u32_be(d) + hash_of(*inner)),
        ValueModel::Product(inners) => sha3_of(hashes_of(inners)),
    }
}

/// The concatenation, in sequence order, of each child's hash.
pub open spec fn hashes_of(s: Seq<ValueModel>) -> Seq<u8>
    decreases s,
{
    if s.len() == 0 {
        Seq::empty()
    } else {
        hashes_of(s.drop_last()) + hash_of(s.last())
    }
}

/// The content hash of a fragment: as for a full value, except that a
/// `Reference` hashes to the digest it holds, verbatim.
pub open spec fn frag_hash_of(f: FragmentModel) -> Seq<u8>
    decreases f,
{
    match f {
        FragmentModel::Blob(b) => sha3_of(b),
        FragmentModel::Sum(d, inner) => sha3_of(spec_u32_be(d) + frag_hash_of(*inner)),
        FragmentModel::Product(inners) => sha3_of(frag_hashes_of(inners)),
        FragmentModel::Reference(h) => h,
    }
}

/// The concatenation, in sequence order, of each child fragment's hash.
pub open spec fn frag_hashes_of(s: Seq<FragmentModel>) -> Seq<u8>
    decreases s,
{
    if s.len() == 0 {
        Seq::empty()
    } else {
        frag_hashes_of(s.drop_last()) + frag_hash_of(s.last())
    }
}

/// The capability of carrying a content hash: both tree shapes have it.
pub trait ContentHashed {
    /// What the hash of this value is, as a byte sequence.
    spec fn content_hash(&self) -> Seq<u8>;

    /// Computes the content hash.
    fn hash(&self) -> (r: Hash)
        ensures
            r@ == self.content_hash(),
    ;
}

impl ContentHashed for FullValue {
    open spec fn content_hash(&self) -> Seq<u8> {
        hash_of(self@)
    }

    #[verifier::loop_isolation(false)]
    fn hash(&self) -> (r: Hash)
        decreases self,
    {
        match self {
            FullValue::Blob(bytes) => Hash::of(bytes.as_slice()),
            FullValue::Sum(discriminant, inner) => {
                let mut buf: Vec<u8> = Vec::new();
                push_u32_be(&mut buf, *discriminant);
                let h = inner.hash();
                buf.extend_from_slice(h.as_bytes());
                proof {
                    assert(buf@ =~= spec_u32_be(*discriminant) + hash_of(inner@));
                }
                Hash::of(buf.as_slice())
            },
            FullValue::Product(inners) => {
                let ghost vs = full_view_seq(inners@);
                proof {
                    lemma_full_view_seq(inners@);
                }
                let mut buf: Vec<u8> = Vec::new();
                let mut i: usize = 0;
                while i < inners.len()
                    invariant
                        i <= inners.len(),
                        vs == full_view_seq(inners@),
                        vs.len() == inners@.len(),
                        forall|j: int| 0 <= j < inners@.len() ==> vs[j] == full_view(inners@[j]),
                        buf@ == hashes_of(vs.take(i as int)),
                    decreases inners.len() - i,
                {
                    proof {
                        assert(decreases_to!(*self => (*self)->Product_0));
                        assert((*self)->Product_0 == *inners);
                        assert(decreases_to!(*inners => (*inners)[i as int]));
                    }
                    let h = inners[i].hash();
                    buf.extend_from_slice(h.as_bytes());
                    proof {
                        assert(vs.take(i + 1).drop_last() =~= vs.take(i as int));
                        assert(vs.take(i + 1).last() == vs[i as int]);
                        assert(buf@ =~= hashes_of(vs.take(i as int)) + hash_of(vs[i as int]));
                    }
                    i += 1;
                }
                proof {
                    assert(vs.take(inners@.len() as int) =~= vs);
                }
                Hash::of(buf.as_slice())
            },
        }
    }
}

impl ContentHashed for ValueFragment {
    open spec fn content_hash(&self) -> Seq<u8> {
        frag_hash_of(self@)
    }

    #[verifier::loop_isolation(false)]
    fn hash(&self) -> (r: Hash)
        decreases self,
    {
        match self {
            ValueFragment::Blob(bytes) => Hash::of(bytes.as_slice()),
            ValueFragment::Sum(discriminant, inner) => {
                let mut buf: Vec<u8> = Vec::new();
                push_u32_be(&mut buf, *discriminant);
                let h = inner.hash();
                buf.extend_from_slice(h.as_bytes());
                proof {
                    assert(buf@ =~= spec_u32_be(*discriminant) + frag_hash_of(inner@));
                }
                Hash::of(buf.as_slice())
            },
            ValueFragment::Product(inners) => {
                let ghost vs = frag_view_seq(inners@);
                proof {
                    lemma_frag_view_seq(inners@);
                }
                let mut buf: Vec<u8> = Vec::new();
                let mut i: usize = 0;
                while i < inners.len()
                    invariant
                        i <= inners.len(),
                        vs == frag_view_seq(inners@),
                        vs.len() == inners@.len(),
                        forall|j: int| 0 <= j < inners@.len() ==> vs[j] == frag_view(inners@[j]),
                        buf@ == frag_hashes_of(vs.take(i as int)),
                    decreases inners.len() - i,
                {
                    proof {
                        assert(decreases_to!(*self => (*self)->Product_0));
                        assert((*self)->Product_0 == *inners);
                        assert(decreases_to!(*inners => (*inners)[i as int]));
                    }
                    let h = inners[i].hash();
                    buf.extend_from_slice(h.as_bytes());
                    proof {
                        assert(vs.take(i + 1).drop_last() =~= vs.take(i as int));
                        assert(vs.take(i + 1).last() == vs[i as int]);
                        assert(buf@ =~= frag_hashes_of(vs.take(i as int)) + frag_hash_of(
                            vs[i as int],
                        ));
                    }
                    i += 1;
                }
                proof {
                    assert(vs.take(inners@.len() as int) =~= vs);
                }
                Hash::of(buf.as_slice())
            },
            ValueFragment::Reference(h) => *h,
        }
    }
}


/// A fragment dehydrates a value when it is the same tree with zero or
/// more subtrees replaced by a `Reference` to that subtree's hash.
pub open spec fn dehydration_of(f: FragmentModel, v: ValueModel) -> bool
    decreases f,
{
    ||| f == FragmentModel::Reference(hash_of(v))
    ||| match (f, v) {
        (FragmentModel::Blob(a), ValueModel::Blob(b)) => a == b,
        (FragmentModel::Sum(df, fi), ValueModel::Sum(dv, vi)) => df == dv && dehydration_of(
            *fi,
            *vi,
        ),
        (FragmentModel::Product(fs), ValueModel::Product(vs)) => fs.len() == vs.len() && (forall|
            i: int,
        |
            0 <= i < fs.len() ==> dehydration_of(#[trigger] fs[i], vs[i])),
        _ => false,
    }
}

/// Cross-representation equivalence: a fragment obtained from a value by
/// dehydrating any subset of its subtrees hashes exactly as the value does.
pub proof fn lemma_dehydration_preserves_hash(f: FragmentModel, v: ValueModel)
    requires
        dehydration_of(f, v),
    ensures
        frag_hash_of(f) == hash_of(v),
    decreases f,
{
    if f != FragmentModel::Reference(hash_of(v)) {
        match (f, v) {
            (FragmentModel::Sum(df, fi), ValueModel::Sum(dv, vi)) => {
                lemma_dehydration_preserves_hash(*fi, *vi);
            },
            (FragmentModel::Product(fs), ValueModel::Product(vs)) => {
                lemma_dehydration_hashes_seq(fs, vs);
            },
            _ => {},
        }
    }
}

/// Children that dehydrate each other, position by position, concatenate
/// to the same hashes.
proof fn lemma_dehydration_hashes_seq(fs: Seq<FragmentModel>, vs: Seq<ValueModel>)
    requires
        fs.len() == vs.len(),
        forall|i: int| 0 <= i < fs.len() ==> dehydration_of(#[trigger] fs[i], vs[i]),
    ensures
        frag_hashes_of(fs) == hashes_of(vs),
    decreases fs,
{
    if fs.len() > 0 {
        lemma_dehydration_hashes_seq(fs.drop_last(), vs.drop_last());
        lemma_dehydration_preserves_hash(fs.last(), vs.last());
    }
}

/// The fully-inlined fragment of a value is one of its dehydrations: the
/// one that replaces no subtree at all.
pub proof fn lemma_fragment_of_dehydrates(v: ValueModel)
    ensures
        dehydration_of(fragment_of(v), v),
    decreases v,
{
    match v {
        ValueModel::Blob(_b) => {},
        ValueModel::Sum(_d, inner) => {
            lemma_fragment_of_dehydrates(*inner);
        },
        ValueModel::Product(vs) => {
            lemma_fragment_of_seq(vs);
            assert forall|i: int| 0 <= i < vs.len() implies dehydration_of(
                #[trigger] fragment_of_seq(vs)[i],
                vs[i],
            ) by {
                lemma_fragment_of_dehydrates(vs[i]);
            }
        },
    }
}

/// Conversion to a fully-inlined fragment preserves the hash.
pub proof fn lemma_fragment_of_preserves_hash(v: ValueModel)
    ensures
        frag_hash_of(fragment_of(v)) == hash_of(v),
{
    lemma_fragment_of_dehydrates(v);
    lemma_dehydration_preserves_hash(fragment_of(v), v);
}

/// Hash stability: the hash is a function of the value alone, so any two
/// hashings of the same value yield identical bytes.
pub proof fn lemma_hash_deterministic(v: ValueModel, r1: Seq<u8>, r2: Seq<u8>)
    requires
        r1 == hash_of(v),
        r2 == hash_of(v),
    ensures
        r1 == r2,
{
}

} // verus!
