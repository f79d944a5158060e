//! A recursive, content-addressed value model: a value tree may be fully
//! materialized (`FullValue`) or partially dehydrated (`ValueFragment`),
//! where any subtree stands as a reference to its own content hash without
//! changing the hash of the enclosing structure.

use vstd::prelude::*;

pub mod bytes_be;
pub mod hashing;
pub mod sede;

pub use hashing::ContentHashed;
pub use sede::DecodeError;

verus! {

/// A fully-materialized value: every subtree is concretely present.
#[derive(Debug, PartialEq, Eq)]
pub enum FullValue {
    Blob(Vec<u8>),
    Sum(u32, Box<FullValue>),
    Product(Vec<FullValue>),
}

/// A partially-dehydrated value: it mirrors `FullValue`, and any subtree may
/// instead stand as a `Reference` to the subtree's content hash.
#[derive(Debug, PartialEq)]
pub enum ValueFragment {
    Blob(Vec<u8>),
    Sum(u32, Box<ValueFragment>),
    Product(Vec<ValueFragment>),
    Reference(hashing::Hash),
}

/// The mathematical model of a fully-materialized value tree.
pub enum ValueModel {
    Blob(Seq<u8>),
    Sum(u32, Box<ValueModel>),
    Product(Seq<ValueModel>),
}

/// The mathematical model of a partially-dehydrated value tree; a
/// `Reference` holds the 32-byte digest it stands for.
pub enum FragmentModel {
    Blob(Seq<u8>),
    Sum(u32, Box<FragmentModel>),
    Product(Seq<FragmentModel>),
    Reference(Seq<u8>),
}

pub open spec fn full_view(v: FullValue) -> ValueModel
    decreases v,
{
    match v {
        FullValue::Blob(b) => ValueModel::Blob(b@),
        FullValue::Sum(d, inner) => ValueModel::Sum(d, Box::new(full_view(*inner))),
        FullValue::Product(inners) => ValueModel::Product(full_view_seq(inners@)),
    }
}

pub open spec fn full_view_seq(s: Seq<FullValue>) -> Seq<ValueModel>
    decreases s,
{
    if s.len() == 0 {
        Seq::empty()
    } else {
        full_view_seq(s.drop_last()).push(full_view(s.last()))
    }
}

pub open spec fn frag_view(f: ValueFragment) -> FragmentModel
    decreases f,
{
    match f {
        ValueFragment::Blob(b) => FragmentModel::Blob(b@),
        ValueFragment::Sum(d, inner) => FragmentModel::Sum(d, Box::new(frag_view(*inner))),
        ValueFragment::Product(inners) => FragmentModel::Product(frag_view_seq(inners@)),
        ValueFragment::Reference(h) => FragmentModel::Reference(h@),
    }
}

pub open spec fn frag_view_seq(s: Seq<ValueFragment>) -> Seq<FragmentModel>
    decreases s,
{
    if s.len() == 0 {
        Seq::empty()
    } else {
        frag_view_seq(s.drop_last()).push(frag_view(s.last()))
    }
}

impl View for FullValue {
    type V = ValueModel;

    open spec fn view(&self) -> ValueModel {
        full_view(*self)
    }
}

impl View for ValueFragment {
    type V = FragmentModel;

    open spec fn view(&self) -> FragmentModel {
        frag_view(*self)
    }
}

/// `full_view_seq` maps `full_view` over the sequence, element by element.
pub proof fn lemma_full_view_seq(s: Seq<FullValue>)
    ensures
        full_view_seq(s).len() == s.len(),
        forall|i: int| 0 <= i < s.len() ==> full_view_seq(s)[i] == full_view(s[i]),
    decreases s,
{
    if s.len() > 0 {
        lemma_full_view_seq(s.drop_last());
    }
}

/// `frag_view_seq` maps `frag_view` over the sequence, element by element.
pub proof fn lemma_frag_view_seq(s: Seq<ValueFragment>)
    ensures
        frag_view_seq(s).len() == s.len(),
        forall|i: int| 0 <= i < s.len() ==> frag_view_seq(s)[i] == frag_view(s[i]),
    decreases s,
{
    if s.len() > 0 {
        lemma_frag_view_seq(s.drop_last());
    }
}

/// The fully-inlined fragment of a value: the same tree, with no
/// `Reference` introduced anywhere.
pub open spec fn fragment_of(v: ValueModel) -> FragmentModel
    decreases v,
{
    match v {
        ValueModel::Blob(b) => FragmentModel::Blob(b),
        ValueModel::Sum(d, inner) => FragmentModel::Sum(d, Box::new(fragment_of(*inner))),
        ValueModel::Product(inners) => FragmentModel::Product(fragment_of_seq(inners)),
    }
}

pub open spec fn fragment_of_seq(s: Seq<ValueModel>) -> Seq<FragmentModel>
    decreases s,
{
    if s.len() == 0 {
        Seq::empty()
    } else {
        fragment_of_seq(s.drop_last()).push(fragment_of(s.last()))
    }
}

/// `fragment_of_seq` maps `fragment_of` over the sequence, element by element.
pub proof fn lemma_fragment_of_seq(s: Seq<ValueModel>)
    ensures
        fragment_of_seq(s).len() == s.len(),
        forall|i: int| 0 <= i < s.len() ==> fragment_of_seq(s)[i] == fragment_of(s[i]),
    decreases s,
{
    if s.len() > 0 {
        lemma_fragment_of_seq(s.drop_last());
    }
}

impl FullValue {
    /// Produces the fully-inlined fragment of this value by structural copy;
    /// the result contains no `Reference` node.
    #[verifier::loop_isolation(false)]
    pub fn clone_fragment(&self) -> (r: ValueFragment)
        ensures
            r@ == fragment_of(self@),
        decreases self,
    {
        match self {
            FullValue::Blob(v) => ValueFragment::Blob(vstd::slice::slice_to_vec(v.as_slice())),
            FullValue::Sum(discrim, inner) => ValueFragment::Sum(
                *discrim,
                Box::new(inner.clone_fragment()),
            ),
            FullValue::Product(inners) => {
                let mut frags: Vec<ValueFragment> = Vec::new();
                let mut i: usize = 0;
                while i < inners.len()
                    invariant
                        i <= inners.len(),
                        frags@.len() == i,
                        forall|j: int| 0 <= j < i ==> frags@[j]@ == fragment_of(inners@[j]@),
                    decreases inners.len() - i,
                {
                    proof {
                        assert(decreases_to!(*self => (*self)->Product_0));
                        assert((*self)->Product_0 == *inners);
                        assert(decreases_to!(*inners => (*inners)[i as int]));
                    }
                    frags.push(inners[i].clone_fragment());
                    i += 1;
                }
                proof {
                    lemma_full_view_seq(inners@);
                    lemma_fragment_of_seq(full_view_seq(inners@));
                    lemma_frag_view_seq(frags@);
                    assert(frag_view_seq(frags@) =~= fragment_of_seq(full_view_seq(inners@)));
                }
                ValueFragment::Product(frags)
            },
        }
    }

    /// The same transformation as `clone_fragment`, but consuming the value,
    /// so that the blobs move instead of being copied.
    #[verifier::loop_isolation(false)]
    pub fn to_fragment(self) -> (r: ValueFragment)
        ensures
            r@ == fragment_of(self@),
        decreases self,
    {
        let ghost v0 = self;
        match self {
            FullValue::Blob(v) => ValueFragment::Blob(v),
            FullValue::Sum(discrim, inner) => ValueFragment::Sum(
                discrim,
                Box::new((*inner).to_fragment()),
            ),
            FullValue::Product(inners) => {
                let ghost inners0 = inners;
                let mut rest = inners;
                let mut frags: Vec<ValueFragment> = Vec::new();
                while rest.len() > 0
                    invariant
                        frags@.len() + rest@.len() == inners0@.len(),
                        rest@ == inners0@.skip(frags@.len() as int),
                        forall|j: int|
                            0 <= j < frags@.len() ==> frags@[j]@ == fragment_of(inners0@[j]@),
                    decreases rest@.len(),
                {
                    let ghost k = frags@.len() as int;
                    let x = rest.remove(0);
                    proof {
                        assert(x == inners0[k]);
                        assert(decreases_to!(v0 => v0->Product_0));
                        assert(v0->Product_0 == inners0);
                        assert(decreases_to!(inners0 => inners0[k]));
                        assert(rest@ =~= inners0@.skip(k + 1));
                    }
                    frags.push(x.to_fragment());
                }
                proof {
                    lemma_full_view_seq(inners0@);
                    lemma_fragment_of_seq(full_view_seq(inners0@));
                    lemma_frag_view_seq(frags@);
                    assert(frag_view_seq(frags@) =~= fragment_of_seq(full_view_seq(inners0@)));
                }
                ValueFragment::Product(frags)
            },
        }
    }
}

} // verus!
