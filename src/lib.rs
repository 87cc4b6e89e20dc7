//! An append-only, fixed-height Merkle tree for note commitments.
//!
//! The hash function, the element type and the element codec are supplied by
//! the host through [`HashableElement`] and [`MerkleHasher`]. Two trees are
//! offered: [`linked::LinkedMerkleTree`], an arena of internal nodes that
//! cache the hashes of their siblings, and [`vector::VectorMerkleTree`], a
//! complete binary tree stored level by level in one array. Both answer the
//! root, the historical roots and authentication paths as described by the
//! functions of [`model`].
use std::sync::Arc;
use vstd::prelude::*;

pub mod codec;
pub mod laws;
pub mod linked;
pub mod model;
pub mod vector;

verus! {

/// An object that can be used as a hash in a Merkle tree.
pub trait MerkleHash: Clone + PartialEq {

}

impl<T: Clone + PartialEq> MerkleHash for T {

}

/// A leaf element of the tree. Each element knows its own leaf hash and how
/// to write itself as bytes.
pub trait HashableElement: Clone + PartialEq + Sized {
    type Hash: MerkleHash;

    /// The leaf hash of this element. Each implementation has its own; the
    /// default stands for none in particular.
    closed spec fn spec_merkle_hash(&self) -> Self::Hash {
        arbitrary()
    }

    /// The bytes that `write` appends for this element. Each implementation
    /// has its own; the default stands for none in particular.
    closed spec fn spec_encoding(&self) -> Seq<u8> {
        arbitrary()
    }

    /// Calculate the hash of this element. It must be a function of the
    /// element alone.
    fn merkle_hash(&self) -> (h: Self::Hash)
        ensures
            h == self.spec_merkle_hash(),
    ;

    /// Append the encoding of this element to `writer`.
    fn write(&self, writer: &mut Vec<u8>)
        ensures
            final(writer)@ == old(writer)@ + self.spec_encoding(),
    ;

    /// A copy of this element, equal to it.
    fn copy_element(&self) -> (r: Self)
        ensures
            r == *self,
    ;

    /// Whether `other` is this very element.
    fn same_element(&self, other: &Self) -> (r: bool)
        ensures
            r == (*self == *other),
    ;
}

/// The hash of the elements that a hasher works with.
pub type HashOf<H> = <<H as MerkleHasher>::Element as HashableElement>::Hash;

/// A factory for working with elements: it combines two child hashes into
/// the hash of their parent, and reads elements back from bytes.
pub trait MerkleHasher: Sized {
    type Element: HashableElement;

    /// The parent hash of `left` and `right` at `depth`; depth 0 combines
    /// two leaf hashes. Each implementation has its own; the default stands
    /// for none in particular.
    closed spec fn spec_combine(&self, depth: int, left: HashOf<Self>, right: HashOf<Self>) -> HashOf<
        Self,
    > {
        arbitrary()
    }

    /// Hash two child hashes together. The result must depend on the
    /// arguments alone.
    fn combine_hash(&self, depth: usize, left: &HashOf<Self>, right: &HashOf<Self>) -> (h:
        HashOf<Self>)
        ensures
            h == self.spec_combine(depth as int, *left, *right),
    ;

    /// A copy of hash `h`, equal to it.
    fn copy_hash(&self, h: &HashOf<Self>) -> (r: HashOf<Self>)
        ensures
            r == *h,
    ;

    /// Whether `a` and `b` are the same hash.
    fn same_hash(&self, a: &HashOf<Self>, b: &HashOf<Self>) -> (r: bool)
        ensures
            r == (*a == *b),
    ;

    /// Read one element from `bytes`, starting at `start`. Gives the element
    /// and the position just past it, or `None` when the bytes there do not
    /// hold an element. Where the bytes at `start` begin with the encoding
    /// of an element, that element is what is read.
    fn read_element(&self, bytes: &[u8], start: usize) -> (r: Option<(Self::Element, usize)>)
        ensures
            r matches Some((e, next)) ==> start < next <= bytes@.len() && bytes@.subrange(
                start as int,
                next as int,
            ) == e.spec_encoding(),
            forall|e: Self::Element|
                #![trigger e.spec_encoding()]
                start + e.spec_encoding().len() <= bytes@.len() && bytes@.subrange(
                    start as int,
                    start + e.spec_encoding().len(),
                ) == e.spec_encoding() ==> r == Some((e, (start + e.spec_encoding().len()) as usize)),
    ;
}

/// The leaf hashes of `es`.
pub open spec fn hashes_of<E: HashableElement>(es: Seq<E>) -> Seq<E::Hash> {
    Seq::new(es.len(), |k: int| es[k].spec_merkle_hash())
}

/// The element type of a tree.
pub type ElementOf<M> = <<M as MerkleTree>::Hasher as MerkleHasher>::Element;

/// An append-only Merkle tree, as the host sees it: its leaves, its depth
/// and its hasher decide every answer it gives.
pub trait MerkleTree: Sized {
    type Hasher: MerkleHasher;

    /// The elements of the leaves, in order.
    closed spec fn spec_elements(&self) -> Seq<ElementOf<Self>> {
        arbitrary()
    }

    /// The number of combining levels; the tree holds `2^depth` leaves.
    closed spec fn spec_depth(&self) -> nat {
        arbitrary()
    }

    closed spec fn spec_tree_hasher(&self) -> Self::Hasher {
        arbitrary()
    }

    /// The tree's own bookkeeping is consistent.
    closed spec fn spec_wf(&self) -> bool {
        arbitrary()
    }

    /// A well-formed tree has at least one combining level and no more
    /// leaves than it has room for.
    proof fn lemma_bounds(&self)
        requires
            self.spec_wf(),
        ensures
            self.spec_depth() >= 1,
            self.spec_elements().len() <= model::capacity(self.spec_depth()),
    ;

    /// Rebuild a tree from its serialized form.
    fn read(hasher: Arc<Self::Hasher>, bytes: &[u8]) -> (r: Result<Box<Self>, codec::CodecError>)
        ensures
            r matches Ok(t) ==> t.spec_wf() && t.spec_tree_hasher() == *hasher,
            r matches Ok(t) ==> bytes@ == codec::tree_bytes(
                (t.spec_depth() + 1) as u8,
                t.spec_elements(),
            ),
            bytes@.len() < 5 ==> r == Err::<Box<Self>, codec::CodecError>(
                codec::CodecError::Malformed,
            ),
            bytes@.len() >= 5 && bytes@[0] < 2 ==> r == Err::<Box<Self>, codec::CodecError>(
                codec::CodecError::BadDepth,
            ),
            forall|d: u8, es: Seq<ElementOf<Self>>|
                #![trigger codec::tree_bytes(d, es)]
                bytes@ == codec::tree_bytes(d, es) && 2 <= d && es.len() <= model::capacity(
                    (d - 1) as nat,
                ) && es.len() <= usize::MAX / 4 && es.len() <= u32::MAX ==> (r matches Ok(t)
                    && t.spec_elements() == es && t.spec_depth() == d - 1),
    ;

    /// The hasher.
    fn hasher(&self) -> (r: Arc<Self::Hasher>)
        ensures
            *r == self.spec_tree_hasher(),
    ;

    /// Insert `element` as the new last leaf. The tree must not be full.
    fn add(&mut self, element: ElementOf<Self>)
        requires
            old(self).spec_wf(),
            old(self).spec_elements().len() < model::capacity(old(self).spec_depth()),
            old(self).spec_elements().len() + 1 <= usize::MAX / 4,
        ensures
            final(self).spec_wf(),
            final(self).spec_elements() == old(self).spec_elements().push(element),
            final(self).spec_depth() == old(self).spec_depth(),
            final(self).spec_tree_hasher() == old(self).spec_tree_hasher(),
    ;

    /// A copy of the element at `position`, if there is one.
    fn get(&self, position: usize) -> (r: Option<ElementOf<Self>>)
        requires
            self.spec_wf(),
        ensures
            r == (if position < self.spec_elements().len() {
                Some(self.spec_elements()[position as int])
            } else {
                None
            }),
    ;

    /// The number of leaves.
    fn len(&self) -> (r: usize)
        requires
            self.spec_wf(),
        ensures
            r == self.spec_elements().len(),
    ;

    /// Cut the tree back to its first `past_size` leaves; nothing changes
    /// when `past_size` is not below the number of leaves.
    fn truncate(&mut self, past_size: usize)
        requires
            old(self).spec_wf(),
        ensures
            final(self).spec_wf(),
            final(self).spec_elements() == if past_size < old(self).spec_elements().len() {
                old(self).spec_elements().subrange(0, past_size as int)
            } else {
                old(self).spec_elements()
            },
            final(self).spec_depth() == old(self).spec_depth(),
            final(self).spec_tree_hasher() == old(self).spec_tree_hasher(),
    ;

    /// Copies of all elements, in order.
    fn iter_notes(&self) -> (r: Vec<ElementOf<Self>>)
        requires
            self.spec_wf(),
        ensures
            r@ == self.spec_elements(),
    ;

    /// The current root hash, `None` for an empty tree.
    fn root_hash(&self) -> (r: Option<HashOf<Self::Hasher>>)
        requires
            self.spec_wf(),
        ensures
            r == (if self.spec_elements().len() == 0 {
                None
            } else {
                Some(
                    model::root_of(
                        self.spec_tree_hasher(),
                        hashes_of(self.spec_elements()),
                        self.spec_depth(),
                    ),
                )
            }),
    ;

    /// The root the tree had when it held its first `past_size` leaves.
    fn past_root(&self, past_size: usize) -> (r: Option<HashOf<Self::Hasher>>)
        requires
            self.spec_wf(),
        ensures
            r == (if past_size == 0 || past_size > self.spec_elements().len() {
                None
            } else {
                Some(
                    model::root_of(
                        self.spec_tree_hasher(),
                        hashes_of(self.spec_elements()).subrange(0, past_size as int),
                        self.spec_depth(),
                    ),
                )
            }),
    ;

    /// Whether one of the first `past_size` leaves holds `value`.
    fn contained(&self, value: &ElementOf<Self>, past_size: usize) -> (r: bool)
        requires
            self.spec_wf(),
        ensures
            r == exists|k: int|
                0 <= k < past_size && k < self.spec_elements().len() && self.spec_elements()[k]
                    == *value,
    ;

    /// Whether some leaf holds `value`.
    fn contains(&self, value: &ElementOf<Self>) -> (r: bool)
        requires
            self.spec_wf(),
        ensures
            r == self.spec_elements().contains(*value),
    ;

    /// The authentication path of the leaf at `position`, with the tree's
    /// size and root.
    fn witness(&self, position: usize) -> (r: Option<Witness<Self::Hasher>>)
        requires
            self.spec_wf(),
        ensures
            r is Some <==> position < self.spec_elements().len(),
            r matches Some(w) ==> {
                &&& w.tree_size == self.spec_elements().len()
                &&& w.root_hash == model::root_of(
                    self.spec_tree_hasher(),
                    hashes_of(self.spec_elements()),
                    self.spec_depth(),
                )
                &&& w.auth_path@ == model::auth_path(
                    self.spec_tree_hasher(),
                    hashes_of(self.spec_elements()),
                    self.spec_depth(),
                    position as int,
                )
            },
    ;

    /// Append the serialized tree to `writer`.
    fn write(&self, writer: &mut Vec<u8>) -> (r: Result<(), codec::CodecError>)
        requires
            self.spec_wf(),
        ensures
            r is Ok <==> self.spec_depth() + 1 <= 255 && self.spec_elements().len() <= u32::MAX,
            r is Ok ==> final(writer)@ == old(writer)@ + codec::tree_bytes(
                (self.spec_depth() + 1) as u8,
                self.spec_elements(),
            ),
            r is Err ==> final(writer)@ == old(writer)@ && r == Err::<(), codec::CodecError>(
                codec::CodecError::TooLarge,
            ),
    ;
}

/// Witness to a specific node in an authentication path. The hash held is
/// that of the sibling: `Left(h)` says that the node on the path is a left
/// child and `h` is the hash of its right sibling.
#[derive(Clone, Debug, PartialEq, Eq)]
pub enum WitnessNode<H> {
    Left(H),
    Right(H),
}

/// Commitment that a leaf exists in the tree: an authentication path and
/// the root hash of the tree when the path was computed.
pub struct Witness<H: MerkleHasher> {
    pub tree_size: usize,
    pub root_hash: HashOf<H>,
    pub auth_path: Vec<WitnessNode<HashOf<H>>>,
}

/// Relies on `Arc::clone`: the new handle points to the same value.
#[verifier::external_body]
pub(crate) fn share<T>(a: &Arc<T>) -> (r: Arc<T>)
    ensures
        *r == **a,
{
    a.clone()
}

impl<H: MerkleHasher> Witness<H> {
    /// Verify that the root hash and authentication path of this witness
    /// confirm that a leaf with hash `my_hash` exists in the tree.
    pub fn verify(&self, hasher: &H, my_hash: &HashOf<H>) -> (r: bool)
        ensures
            r == (model::fold_path(*hasher, *my_hash, self.auth_path@, self.auth_path@.len())
                == self.root_hash),
    {
        let mut cur_hash = hasher.copy_hash(my_hash);
        let mut i: usize = 0;
        while i < self.auth_path.len()
            invariant
                i <= self.auth_path@.len(),
                cur_hash == model::fold_path(*hasher, *my_hash, self.auth_path@, i as nat),
            decreases self.auth_path@.len() - i,
        {
            cur_hash =
            match &self.auth_path[i] {
                WitnessNode::Left(right_hash) => hasher.combine_hash(i, &cur_hash, right_hash),
                WitnessNode::Right(left_hash) => hasher.combine_hash(i, left_hash, &cur_hash),
            };
            i = i + 1;
        }
        hasher.same_hash(&cur_hash, &self.root_hash)
    }
}

} // verus!
