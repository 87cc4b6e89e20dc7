//! A Merkle tree kept as a complete binary tree in one array, level by
//! level from the root: the children of position `i` are at `2i + 1` and
//! `2i + 2`, and the leaves fill the last level from the left. Positions of
//! the last level past the leaves do not exist; internal positions with no
//! leaf below them hold `Empty`.
use std::collections::VecDeque;
use std::sync::Arc;
use vstd::prelude::*;

use crate::model::{
    auth_path, bits, capacity, is_two_pow, lemma_bits_bounds, lemma_bits_le, lemma_bits_unique,
    lemma_bits_within, lemma_capacity, lemma_is_two_pow, lemma_level_len, lemma_level_prefix,
    lemma_shr_bits, lemma_shr_mono, lemma_shr_nonneg, lemma_shr_succ, level,
    pair_at, path_entry, root_of, shr, two_pow,
};
use crate::codec::{
    encode_all, lemma_encode_prefix, lemma_encode_step, lemma_le_bytes_of_value, lemma_le_round_trip,
    le_bytes, read_u32_le,
    tree_bytes, write_u32_le, CodecError,
};
use crate::linked::lemma_last_step;
use crate::{
    hashes_of, share, HashOf, HashableElement, MerkleHasher, MerkleTree,
    Witness, WitnessNode,
};

verus! {

/// A position of the array: a leaf's element, an internal node's hash, or
/// nothing.
pub enum Node<T: MerkleHasher> {
    Leaf(T::Element),
    Internal(HashOf<T>),
    Empty,
}

/// Whether a complete binary tree of `num_nodes` positions has all its
/// levels full, so that one more leaf needs a new level.
pub fn is_complete(num_nodes: usize) -> (r: bool)
    requires
        num_nodes < usize::MAX,
    ensures
        r == is_two_pow(num_nodes + 1),
{
    let mut v = num_nodes + 1;
    while v > 1 && v % 2 == 0
        invariant
            v >= 1,
            is_two_pow(v as int) == is_two_pow(num_nodes + 1),
        decreases v,
    {
        v = v / 2;
    }
    v == 1
}

/// Whether position `my_index` is on the leftmost path from the root: it
/// and all its ancestors are left children.
pub fn is_leftmost_path(my_index: usize) -> (r: bool)
    requires
        my_index < usize::MAX,
    ensures
        r == is_two_pow(my_index + 1),
{
    is_complete(my_index)
}

/// The number of levels of a complete binary tree whose last position is
/// `index`: `floor(log2(index + 1)) + 1`.
pub fn depth_at_index(index: usize) -> (r: usize)
    requires
        index < usize::MAX,
    ensures
        r == bits(index + 1),
{
    let mut x = index + 1;
    let mut b: usize = 0;
    proof {
        lemma_bits_le(index + 1);
    }
    while x > 0
        invariant
            b + bits(x as int) == bits(index + 1),
            bits(index + 1) <= index + 1,
            index < usize::MAX,
        decreases x,
    {
        assert(bits(x as int) == 1 + bits(x as int / 2));
        x = x / 2;
        b = b + 1;
    }
    b
}

/// Two to the power `e`.
fn power_of_two(e: usize) -> (r: usize)
    requires
        two_pow(e as nat) <= usize::MAX,
    ensures
        r == two_pow(e as nat),
{
    let mut r: usize = 1;
    let mut i: usize = 0;
    while i < e
        invariant
            i <= e,
            r == two_pow(i as nat),
            two_pow(e as nat) <= usize::MAX,
        decreases e - i,
    {
        proof {
            lemma_two_pow_mono((i + 1) as nat, e as nat);
        }
        r = r * 2;
        i = i + 1;
    }
    r
}

pub proof fn lemma_two_pow_mono(a: nat, b: nat)
    requires
        a <= b,
    ensures
        two_pow(a) <= two_pow(b),
        two_pow(a) >= 1,
    decreases b,
{
    if b > a {
        lemma_two_pow_mono(a, (b - 1) as nat);
    } else if a > 0 {
        lemma_two_pow_mono((a - 1) as nat, (a - 1) as nat);
    }
}

/// The position of the first leaf of a tree of `num_nodes` positions.
pub fn first_leaf(num_nodes: usize) -> (r: usize)
    requires
        num_nodes >= 1,
    ensures
        r == two_pow((bits(num_nodes as int) - 1) as nat) - 1,
{
    proof {
        lemma_bits_bounds(num_nodes as int);
    }
    power_of_two(depth_at_index(num_nodes - 1) - 1) - 1
}

/// The position of the first leaf of a tree holding `num_leaves` leaves.
pub fn first_leaf_by_num_leaves(num_leaves: usize) -> (r: usize)
    requires
        num_leaves >= 1,
        num_leaves <= usize::MAX / 2,
    ensures
        r == two_pow(bits(num_leaves - 1)) - 1,
{
    if num_leaves == 1 {
        return 0;
    }
    proof {
        lemma_bits_bounds(num_leaves - 1);
        let b = bits(num_leaves - 1);
        assert(two_pow(b) == 2 * two_pow((b - 1) as nat));
    }
    power_of_two(depth_at_index(num_leaves - 2)) - 1
}

/// The position of the left child of `my_index`; the right child follows
/// it.
pub fn left_child_index(my_index: usize) -> (r: usize)
    requires
        2 * my_index + 2 <= usize::MAX,
    ensures
        r == 2 * my_index + 1,
{
    (my_index + 1) * 2 - 1
}

/// The position of the parent of `my_index`.
pub fn parent_index(my_index: usize) -> (r: usize)
    requires
        1 <= my_index < usize::MAX,
    ensures
        r == (my_index - 1) / 2,
{
    (my_index + 1) / 2 - 1
}

/// Whether `my_index` is a left child.
pub fn is_left_child(my_index: usize) -> (r: bool)
    ensures
        r == (my_index % 2 == 1),
{
    my_index % 2 != 0
}

/// Position `two_pow(r) - 1 + j` is position `j` of level `r`, counted from
/// the root; its parent is position `j / 2` of level `r - 1`.
pub proof fn lemma_heap_parent(r: nat, j: int)
    requires
        r >= 1,
        0 <= j < two_pow(r),
    ensures
        two_pow(r) == 2 * two_pow((r - 1) as nat),
        ((two_pow(r) - 1 + j) - 1) / 2 == two_pow((r - 1) as nat) - 1 + j / 2,
        (two_pow(r) - 1 + j) % 2 == 1 <==> j % 2 == 0,
        two_pow(r) - 1 + j >= 1,
{
}

/// The first position of a level is the one whose successor is a power of
/// two.
pub proof fn lemma_heap_leftmost(r: nat, j: int)
    requires
        0 <= j < two_pow(r),
    ensures
        is_two_pow(two_pow(r) + j) <==> j == 0,
{
    lemma_two_pow_mono(r, r);
    assert(two_pow(r + 1) == 2 * two_pow(r));
    assert(two_pow(((r + 1) - 1) as nat) == two_pow(r));
    lemma_bits_unique(two_pow(r) + j, r + 1);
    lemma_is_two_pow(two_pow(r) + j);
}

/// What position `j` of level `r` of the array holds, for leaves `es`:
/// the leaves on the last level, the hashes of the tree's levels above, and
/// `Empty` past the last hash of a level.
pub open spec fn expected_at<T: MerkleHasher>(h: T, es: Seq<T::Element>, r: nat, j: int) -> Node<T> {
    let rows = bits(es.len() - 1);
    let hs = Seq::new(es.len(), |k: int| es[k].spec_merkle_hash());
    let s = level(h, hs, (rows - r) as nat);
    if r == rows {
        Node::Leaf(es[j])
    } else if j < s.len() {
        Node::Internal(s[j])
    } else {
        Node::Empty
    }
}

/// What position `i` of the array holds, for leaves `es`.
pub open spec fn full_at<T: MerkleHasher>(h: T, es: Seq<T::Element>, i: int) -> Node<T> {
    let r = (bits(i + 1) - 1) as nat;
    expected_at(h, es, r, i + 1 - two_pow(r))
}

/// A position below `2^(a + b)` is below `2^b` after shifting by `a`.
pub proof fn lemma_shr_lt(x: int, a: nat, b: nat)
    requires
        0 <= x < two_pow(a + b),
    ensures
        shr(x, a) < two_pow(b),
    decreases a,
{
    if a > 0 {
        assert((a - 1) + (b + 1) == a + b);
        lemma_shr_lt(x, (a - 1) as nat, b + 1);
        assert(two_pow(b + 1) == 2 * two_pow(b));
    }
}

/// A Merkle tree stored as a complete binary tree in one array.
pub struct VectorMerkleTree<T: MerkleHasher> {
    nodes: VecDeque<Node<T>>,
    tree_depth: usize,
    hasher: Arc<T>,
    leaves: Ghost<Seq<T::Element>>,
}

/// Relies on `VecDeque`'s `IndexMut`: assigning through it replaces one
/// position.
#[verifier::external_body]
fn replace_at<T>(d: &mut VecDeque<T>, i: usize, v: T)
    requires
        i < old(d)@.len(),
    ensures
        final(d)@ == old(d)@.update(i as int, v),
{
    d[i] = v;
}

impl<T: MerkleHasher> VectorMerkleTree<T> {
    /// The elements of the leaves, in order.
    pub closed spec fn elements(&self) -> Seq<T::Element> {
        self.leaves@
    }

    /// The leaf hashes, in order.
    pub open spec fn leaf_hashes(&self) -> Seq<HashOf<T>> {
        Seq::new(self.elements().len(), |k: int| self.elements()[k].spec_merkle_hash())
    }

    /// The number of combining levels: the authentication path's length.
    pub closed spec fn depth(&self) -> nat {
        (self.tree_depth - 1) as nat
    }

    pub closed spec fn spec_hasher(&self) -> T {
        *self.hasher
    }

    /// The root hash of the tree of leaf hashes `hs`.
    pub open spec fn root_of(&self, hs: Seq<HashOf<T>>) -> HashOf<T> {
        root_of(self.spec_hasher(), hs, self.depth())
    }

    /// The levels of the array below the root level.
    closed spec fn rows(&self) -> nat {
        bits(self.leaves@.len() - 1)
    }

    /// How many positions level `r` of the array has.
    closed spec fn width(&self, r: nat) -> int {
        if r < self.rows() {
            two_pow(r) as int
        } else {
            self.leaves@.len() as int
        }
    }

    closed spec fn cell(&self, r: nat, j: int) -> Node<T> {
        self.nodes@[two_pow(r) - 1 + j]
    }

    /// What position `j` of level `r` of the array holds.
    closed spec fn expected(&self, r: nat, j: int) -> Node<T> {
        expected_at(self.spec_hasher(), self.leaves@, r, j)
    }

    pub closed spec fn wf(&self) -> bool {
        &&& 2 <= self.tree_depth < usize::MAX
        &&& self.leaves@.len() <= capacity((self.tree_depth - 1) as nat)
        &&& self.leaves@.len() <= usize::MAX / 4
        &&& self.leaves@.len() == 0 ==> self.nodes@.len() == 0
        &&& self.leaves@.len() >= 1 ==> {
            &&& self.nodes@.len() == two_pow(self.rows()) - 1 + self.leaves@.len()
            &&& forall|r: nat, j: int|
                r <= self.rows() && 0 <= j < self.width(r) ==> #[trigger] self.cell(r, j)
                    == self.expected(r, j)
        }
    }

    /// A well-formed tree has at least one combining level, no more leaves
    /// than it has room for, and few enough that its array fits in memory.
    pub proof fn lemma_wf_bounds(&self)
        requires
            self.wf(),
        ensures
            self.depth() >= 1,
            self.elements().len() <= capacity(self.depth()),
            self.elements().len() <= usize::MAX / 4,
    {
    }

    /// A well-formed tree's array is decided by its hasher, its depth and
    /// its leaves.
    pub proof fn lemma_same_leaves_same_array(&self, other: &Self)
        requires
            self.wf(),
            other.wf(),
            self.elements() == other.elements(),
            self.spec_hasher() == other.spec_hasher(),
        ensures
            self.positions() == other.positions(),
    {
        if self.leaves@.len() >= 1 {
            assert forall|i: int| 0 <= i < self.nodes@.len() implies self.nodes@[i] == other.nodes@[i] by {
                self.lemma_row(i);
                let r = (bits(i + 1) - 1) as nat;
                let j = i + 1 - two_pow(r);
                assert(self.cell(r, j) == self.expected(r, j));
                assert(other.cell(r, j) == other.expected(r, j));
            }
        }
        assert(self.nodes@ =~= other.nodes@);
    }

    /// The hash a position stands for, if any.
    closed spec fn hash_of(&self, n: Node<T>) -> Option<HashOf<T>> {
        match n {
            Node::Leaf(e) => Some(e.spec_merkle_hash()),
            Node::Internal(h) => Some(h),
            Node::Empty => None,
        }
    }

    /// Facts about the shape of a non-empty well-formed tree.
    proof fn lemma_shape(&self)
        requires
            self.wf(),
            self.leaves@.len() >= 1,
        ensures
            self.leaves@.len() <= two_pow(self.rows()),
            bits(self.nodes@.len() as int) == self.rows() + 1,
            self.rows() <= self.depth(),
            two_pow(self.rows()) >= 1,
            self.leaf_hashes().len() == self.leaves@.len(),
    {
        let n = self.leaves@.len() as int;
        let t = self.rows();
        lemma_two_pow_mono(t, t);
        if n >= 2 {
            lemma_bits_bounds(n - 1);
        }
        assert(two_pow(t + 1) == 2 * two_pow(t));
        assert(two_pow(((t + 1) - 1) as nat) == two_pow(t));
        lemma_bits_unique(self.nodes@.len() as int, t + 1);
        lemma_bits_within(n, self.depth());
    }

    /// The leaf at position `j` of the last level.
    proof fn lemma_leaf_cell(&self, j: int)
        requires
            self.wf(),
            0 <= j < self.leaves@.len(),
        ensures
            self.nodes@[two_pow(self.rows()) - 1 + j] == Node::<T>::Leaf(self.leaves@[j]),
    {
        assert(self.cell(self.rows(), j) == self.expected(self.rows(), j));
    }

    /// The internal position `j` of level `r`, which holds hash `j` of tree
    /// level `rows - r`.
    proof fn lemma_internal_cell(&self, r: nat, j: int)
        requires
            self.wf(),
            self.leaves@.len() >= 1,
            r < self.rows(),
            0 <= j < two_pow(r),
        ensures
            self.nodes@[two_pow(r) - 1 + j] == self.expected(r, j),
    {
        assert(self.cell(r, j) == self.expected(r, j));
    }

    /// An empty tree of `tree_depth` levels, root included: its paths have
    /// `tree_depth - 1` entries and it holds `2^(tree_depth - 1)` leaves.
    pub fn new_with_size(hasher: Arc<T>, tree_depth: usize) -> (r: Box<Self>)
        requires
            2 <= tree_depth < usize::MAX,
        ensures
            r.wf(),
            r.elements() == Seq::<T::Element>::empty(),
            r.depth() == tree_depth - 1,
            r.spec_hasher() == *hasher,
    {
        Box::new(VectorMerkleTree { nodes: VecDeque::new(), tree_depth, hasher, leaves: Ghost(Seq::empty()) })
    }

    /// An empty tree of 33 levels: paths of 32 entries.
    pub fn new(hasher: Arc<T>) -> (r: Box<Self>)
        ensures
            r.wf(),
            r.elements() == Seq::<T::Element>::empty(),
            r.depth() == 32,
            r.spec_hasher() == *hasher,
    {
        VectorMerkleTree::new_with_size(hasher, 33)
    }

    /// The hasher.
    pub fn hasher(&self) -> (r: Arc<T>)
        ensures
            *r == self.spec_hasher(),
    {
        share(&self.hasher)
    }

    pub fn is_empty(&self) -> (r: bool)
        requires
            self.wf(),
        ensures
            r == (self.elements().len() == 0),
    {
        self.nodes.len() == 0
    }

    /// The positions of the array.
    pub closed spec fn positions(&self) -> Seq<Node<T>> {
        self.nodes@
    }

    /// The number of positions of the array.
    pub fn node_count(&self) -> (r: usize)
        requires
            self.wf(),
        ensures
            r == self.positions().len(),
            r == (if self.elements().len() == 0 {
                0
            } else {
                two_pow(bits(self.elements().len() - 1)) - 1 + self.elements().len()
            }),
    {
        self.nodes.len()
    }

    /// The position `i` of the array, if there is one.
    pub fn node_at(&self, i: usize) -> (r: Option<&Node<T>>)
        requires
            self.wf(),
        ensures
            r == (if i < self.positions().len() {
                Some(&self.positions()[i as int])
            } else {
                None
            }),
    {
        if i < self.nodes.len() {
            Some(&self.nodes[i])
        } else {
            None
        }
    }

    /// The number of leaves.
    pub fn len(&self) -> (r: usize)
        requires
            self.wf(),
        ensures
            r == self.elements().len(),
    {
        if self.nodes.len() == 0 {
            0
        } else {
            proof {
                self.lemma_shape();
            }
            self.nodes.len() - first_leaf(self.nodes.len())
        }
    }

    /// A copy of the element at `position`, if there is one.
    pub fn get(&self, position: usize) -> (r: Option<T::Element>)
        requires
            self.wf(),
        ensures
            r == (if position < self.elements().len() {
                Some(self.elements()[position as int])
            } else {
                None
            }),
    {
        if self.nodes.len() == 0 {
            return None;
        }
        proof {
            self.lemma_shape();
        }
        let first = first_leaf(self.nodes.len());
        if position >= self.nodes.len() - first {
            return None;
        }
        let position = first + position;
        proof {
            self.lemma_leaf_cell(position - first);
        }
        match &self.nodes[position] {
            Node::Leaf(element) => Some(element.copy_element()),
            _ => None,
        }
    }

    /// Copies of all elements, in order.
    pub fn iter_notes(&self) -> (r: Vec<T::Element>)
        requires
            self.wf(),
        ensures
            r@ == self.elements(),
    {
        let mut r: Vec<T::Element> = Vec::new();
        let n = self.len();
        let mut i: usize = 0;
        while i < n
            invariant
                self.wf(),
                n == self.elements().len(),
                i <= n,
                r@ == self.elements().subrange(0, i as int),
            decreases n - i,
        {
            match self.get(i) {
                Some(e) => r.push(e),
                None => {},
            }
            i = i + 1;
            proof {
                assert(r@ =~= self.elements().subrange(0, i as int));
            }
        }
        proof {
            assert(r@ =~= self.elements());
        }
        r
    }

    /// Whether one of the first `past_size` leaves holds `value`.
    pub fn contained(&self, value: &T::Element, past_size: usize) -> (r: bool)
        requires
            self.wf(),
        ensures
            r == exists|k: int|
                0 <= k < past_size && k < self.elements().len() && self.elements()[k] == *value,
    {
        let notes = self.iter_notes();
        let mut i: usize = 0;
        while i < notes.len() && i < past_size
            invariant
                notes@ == self.elements(),
                i <= notes@.len(),
                forall|k: int| 0 <= k < i ==> self.elements()[k] != *value,
            decreases notes@.len() - i,
        {
            if notes[i].same_element(value) {
                assert(self.elements()[i as int] == *value);
                return true;
            }
            i = i + 1;
        }
        false
    }

    /// Whether some leaf holds `value`.
    pub fn contains(&self, value: &T::Element) -> (r: bool)
        requires
            self.wf(),
        ensures
            r == self.elements().contains(*value),
    {
        let r = self.contained(value, self.len());
        proof {
            if r {
                let k = choose|k: int|
                    0 <= k < self.elements().len() && self.elements()[k] == *value;
                assert(self.elements()[k] == *value);
            }
        }
        r
    }

    /// The hash that position `position` stands for: `None` for `Empty` or
    /// a position past the end.
    fn extract_hash(&self, position: usize) -> (r: Option<HashOf<T>>)
        ensures
            r == (if position < self.nodes@.len() {
                self.hash_of(self.nodes@[position as int])
            } else {
                None
            }),
    {
        if position >= self.nodes.len() {
            return None;
        }
        match &self.nodes[position] {
            Node::Empty => None,
            Node::Leaf(element) => Some(element.merkle_hash()),
            Node::Internal(hash) => Some(self.hasher.copy_hash(hash)),
        }
    }

    /// The hash at position `j` of level `r` of the array is hash `j` of
    /// tree level `rows - r`.
    proof fn lemma_cell_hash(&self, r: nat, j: int)
        requires
            self.wf(),
            self.leaves@.len() >= 1,
            r <= self.rows(),
            0 <= j < level(self.spec_hasher(), self.leaf_hashes(), (self.rows() - r) as nat).len(),
            j < self.width(r),
        ensures
            self.hash_of(self.nodes@[two_pow(r) - 1 + j]) == Some(
                level(self.spec_hasher(), self.leaf_hashes(), (self.rows() - r) as nat)[j],
            ),
    {
        assert(self.cell(r, j) == self.expected(r, j));
        if r == self.rows() {
            assert(level(self.spec_hasher(), self.leaf_hashes(), 0) == self.leaf_hashes());
        }
    }

    /// The root hash: `None` for an empty tree, else the root of the tree
    /// padded on the right by pairing each vacant position's neighbour with
    /// itself.
    pub fn root_hash(&self) -> (r: Option<HashOf<T>>)
        requires
            self.wf(),
        ensures
            r == (if self.elements().len() == 0 {
                None
            } else {
                Some(self.root_of(self.leaf_hashes()))
            }),
    {
        if self.nodes.len() == 0 {
            return None;
        }
        let ghost n = self.leaves@.len() as int;
        let ghost t = self.rows();
        let ghost hs = self.leaf_hashes();
        proof {
            self.lemma_shape();
            lemma_level_len(self.spec_hasher(), hs, t);
            lemma_shr_bits(n - 1, t);
            self.lemma_cell_hash(0, 0);
            assert(two_pow(0) == 1);
        }
        let mut cur = match self.extract_hash(0) {
            Some(h) => h,
            None => {
                return None;
            },
        };
        let mut i = depth_at_index(self.nodes.len() - 1);
        while i < self.tree_depth
            invariant
                self.wf(),
                n == self.leaves@.len(),
                n >= 1,
                t == self.rows(),
                hs == self.leaf_hashes(),
                t + 1 <= i <= self.tree_depth,
                cur == level(self.spec_hasher(), hs, (i - 1) as nat)[0],
            decreases self.tree_depth - i,
        {
            proof {
                lemma_level_len(self.spec_hasher(), hs, (i - 1) as nat);
                lemma_shr_bits(n - 1, (i - 1) as nat);
                assert(level(self.spec_hasher(), hs, i as nat)[0] == pair_at(
                    self.spec_hasher(),
                    level(self.spec_hasher(), hs, (i - 1) as nat),
                    i - 1,
                    0,
                ));
            }
            cur = self.hasher.combine_hash(i - 1, &cur, &cur);
            i = i + 1;
        }
        Some(cur)
    }

    /// The authentication path of the leaf at `position`, with the tree's
    /// size and root: `None` when there is no such leaf.
    pub fn witness(&self, position: usize) -> (r: Option<Witness<T>>)
        requires
            self.wf(),
        ensures
            r is Some <==> position < self.elements().len(),
            r matches Some(w) ==> {
                &&& w.tree_size == self.elements().len()
                &&& w.root_hash == self.root_of(self.leaf_hashes())
                &&& w.auth_path@ == auth_path(
                    self.spec_hasher(),
                    self.leaf_hashes(),
                    self.depth(),
                    position as int,
                )
            },
    {
        if self.len() == 0 || position >= self.len() {
            return None;
        }
        let ghost n = self.leaves@.len() as int;
        let ghost t = self.rows();
        let ghost hs = self.leaf_hashes();
        let ghost h = self.spec_hasher();
        let ghost path = auth_path(h, hs, self.depth(), position as int);
        proof {
            self.lemma_shape();
        }
        let mut authentication_path: Vec<WitnessNode<HashOf<T>>> = Vec::new();
        let len = self.nodes.len();
        let mut current_position = first_leaf(self.nodes.len()) + position;
        let mut depth: usize = 0;
        proof {
            assert(shr(position as int, 0) == position);
            assert(authentication_path@ =~= path.subrange(0, 0));
        }
        while current_position != 0
            invariant
                self.wf(),
                n == self.leaves@.len(),
                1 <= n,
                position < n,
                t == self.rows(),
                t <= self.depth(),
                hs == self.leaf_hashes(),
                h == self.spec_hasher(),
                path == auth_path(h, hs, self.depth(), position as int),
                depth <= t,
                len == self.nodes@.len(),
                current_position == two_pow((t - depth) as nat) - 1 + shr(position as int, depth as nat),
                0 <= shr(position as int, depth as nat) < self.width((t - depth) as nat),
                authentication_path@ == path.subrange(0, depth as int),
            decreases t - depth,
        {
            let ghost r = (t - depth) as nat;
            let ghost l = depth as nat;
            let ghost j = shr(position as int, l);
            let ghost s = level(h, hs, l);
            proof {
                lemma_level_len(h, hs, l);
                lemma_shr_mono(position as int, n - 1, l);
                lemma_shr_nonneg(position as int, l);
                if r == 0 {
                    assert(two_pow(0) == 1);
                    assert(self.width(0) == 1 || t == 0);
                    if t > 0 {
                        assert(j == 0);
                    } else {
                        lemma_shr_bits(n - 1, 0);
                        assert(shr(n - 1, 0) == n - 1);
                        assert(n == 1);
                        assert(j == 0);
                    }
                }
                assert(r >= 1);
                lemma_two_pow_mono(r, r);
                assert(j < two_pow(r)) by {
                    if r == t {
                        if t >= 1 {
                            lemma_bits_bounds(n - 1);
                        }
                    }
                }
                lemma_heap_parent(r, j);
                if r < t {
                    lemma_two_pow_mono(r + 1, t);
                    assert(two_pow(r + 1) == 2 * two_pow(r));
                }
                assert(current_position < len);
                self.lemma_cell_hash(r, j);
                assert(path[l as int] == path_entry(h, hs, l, position as int));
                lemma_last_step(position as int, l);
                if j % 2 == 0 {
                    if j + 1 < self.width(r) && j + 1 < s.len() {
                        self.lemma_cell_hash(r, j + 1);
                    } else if j + 1 < self.width(r) {
                        assert(self.cell(r, j + 1) == self.expected(r, j + 1));
                    }
                    if r == t {
                        assert(s.len() == n) by {
                            assert(level(h, hs, 0) == hs);
                        }
                    }
                } else {
                    self.lemma_cell_hash(r, j - 1);
                }
                lemma_shr_nonneg(position as int, l + 1);
                lemma_shr_mono(position as int, n - 1, l + 1);
                lemma_level_len(h, hs, l + 1);
            }
            match self.extract_hash(current_position) {
                Some(my_hash) => {
                    if is_left_child(current_position) {
                        let sibling_hash = match self.extract_hash(current_position + 1) {
                            Some(sibling) => sibling,
                            None => my_hash,
                        };
                        authentication_path.push(WitnessNode::Left(sibling_hash));
                    } else {
                        match self.extract_hash(current_position - 1) {
                            Some(sibling_hash) => {
                                authentication_path.push(WitnessNode::Right(sibling_hash));
                            },
                            None => {
                                proof {
                                    assert(false);
                                }
                            },
                        }
                    }
                },
                None => {
                    proof {
                        assert(false);
                    }
                },
            }
            current_position = parent_index(current_position);
            depth = depth + 1;
            proof {
                assert(authentication_path@ =~= path.subrange(0, depth as int));
                if (t - depth) < t {
                    assert(self.width((t - depth) as nat) == two_pow((t - depth) as nat));
                }
                assert(j / 2 < two_pow((r - 1) as nat));
            }
        }
        proof {
            assert(two_pow(0) == 1);
            assert(depth == t) by {
                if depth < t {
                    lemma_two_pow_mono(1, (t - depth) as nat);
                    assert(two_pow(1) == 2 * two_pow(0));
                }
            }
            lemma_level_len(h, hs, t);
            lemma_shr_bits(n - 1, t);
            self.lemma_cell_hash(0, 0);
        }
        let mut sibling_hash = match self.extract_hash(0) {
            Some(hash) => hash,
            None => {
                return None;
            },
        };
        while authentication_path.len() < self.tree_depth - 1
            invariant
                self.wf(),
                n == self.leaves@.len(),
                position < n,
                t == self.rows(),
                hs == self.leaf_hashes(),
                h == self.spec_hasher(),
                path == auth_path(h, hs, self.depth(), position as int),
                t <= depth <= self.depth(),
                authentication_path@ == path.subrange(0, depth as int),
                sibling_hash == level(h, hs, depth as nat)[0],
            decreases self.tree_depth - depth,
        {
            proof {
                lemma_level_len(h, hs, depth as nat);
                lemma_shr_bits(n - 1, depth as nat);
                lemma_shr_mono(position as int, n - 1, depth as nat);
                lemma_shr_nonneg(position as int, depth as nat);
                assert(path[depth as int] == path_entry(h, hs, depth as nat, position as int));
                assert(level(h, hs, (depth + 1) as nat)[0] == pair_at(h, level(h, hs, depth as nat), depth as int, 0));
            }
            authentication_path.push(WitnessNode::Left(self.hasher.copy_hash(&sibling_hash)));
            sibling_hash = self.hasher.combine_hash(depth, &sibling_hash, &sibling_hash);
            depth = depth + 1;
            proof {
                assert(authentication_path@ =~= path.subrange(0, depth as int));
            }
        }
        proof {
            assert(path.subrange(0, depth as int) =~= path);
        }
        let root_hash = match self.root_hash() {
            Some(hash) => hash,
            None => {
                return None;
            },
        };
        Some(Witness { auth_path: authentication_path, root_hash, tree_size: self.len() })
    }

    /// The root the tree had when it held its first `past_size` leaves:
    /// `None` when `past_size` is zero or more than the number of leaves.
    pub fn past_root(&self, past_size: usize) -> (r: Option<HashOf<T>>)
        requires
            self.wf(),
        ensures
            r == (if past_size == 0 || past_size > self.elements().len() {
                None
            } else {
                Some(self.root_of(self.leaf_hashes().subrange(0, past_size as int)))
            }),
    {
        if self.nodes.len() == 0 || past_size > self.len() || past_size == 0 {
            return None;
        }
        let ghost n = self.leaves@.len() as int;
        let ghost t = self.rows();
        let ghost hs = self.leaf_hashes();
        let ghost h = self.spec_hasher();
        let ghost ps = hs.subrange(0, past_size as int);
        let ghost x = past_size - 1;
        let len = self.nodes.len();
        proof {
            self.lemma_shape();
            assert(shr(x, 0) == x);
            assert(level(h, ps, 0) == ps);
            assert(ps[x] == hs[x]);
            self.lemma_cell_hash(t, x);
            assert(level(h, hs, 0) == hs);
            assert(ps.subrange(0, past_size as int) =~= hs.subrange(0, past_size as int));
        }
        let mut cur = first_leaf(self.nodes.len()) + past_size - 1;
        let mut current_hash = match self.extract_hash(cur) {
            Some(hash) => hash,
            None => {
                return None;
            },
        };
        let mut depth: usize = 0;
        while !is_leftmost_path(cur)
            invariant
                self.wf(),
                n == self.leaves@.len(),
                1 <= past_size <= n,
                x == past_size - 1,
                t == self.rows(),
                t <= self.depth(),
                hs == self.leaf_hashes(),
                h == self.spec_hasher(),
                ps == hs.subrange(0, past_size as int),
                len == self.nodes@.len(),
                cur < len,
                ps.subrange(0, past_size as int) == hs.subrange(0, past_size as int),
                depth <= t,
                cur == two_pow((t - depth) as nat) - 1 + shr(x, depth as nat),
                0 <= shr(x, depth as nat) < self.width((t - depth) as nat),
                current_hash == level(h, ps, depth as nat)[shr(x, depth as nat)],
            decreases t - depth,
        {
            let ghost r = (t - depth) as nat;
            let ghost l = depth as nat;
            let ghost j = shr(x, l);
            proof {
                lemma_level_len(h, ps, l);
                lemma_level_len(h, hs, l);
                lemma_shr_mono(x, n - 1, l);
                lemma_shr_nonneg(x, l);
                lemma_shr_succ(x, l);
                lemma_two_pow_mono(r, r);
                assert(j < two_pow(r)) by {
                    if r == t && t >= 1 {
                        lemma_bits_bounds(n - 1);
                    }
                    if r == t && t == 0 {
                        lemma_shr_bits(n - 1, 0);
                        assert(shr(n - 1, 0) == n - 1);
                    }
                }
                lemma_heap_leftmost(r, j);
                assert(j != 0);
                if r == 0 {
                    assert(two_pow(0) == 1);
                }
                lemma_heap_parent(r, j);
                if r < t {
                    lemma_two_pow_mono(r + 1, t);
                    assert(two_pow(r + 1) == 2 * two_pow(r));
                }
                lemma_last_step(x, l);
                assert(level(h, ps, l + 1)[j / 2] == pair_at(h, level(h, ps, l), l as int, j / 2));
                if j % 2 == 1 {
                    self.lemma_cell_hash(r, j - 1);
                    lemma_level_prefix(h, ps, hs, past_size as int, l, j - 1);
                }
                lemma_shr_nonneg(x, l + 1);
                if r - 1 < t {
                    assert(self.width((r - 1) as nat) == two_pow((r - 1) as nat));
                }
            }
            if is_left_child(cur) {
                current_hash = self.hasher.combine_hash(depth, &current_hash, &current_hash);
            } else {
                match self.extract_hash(cur - 1) {
                    Some(sibling_hash) => {
                        current_hash = self.hasher.combine_hash(depth, &sibling_hash, &current_hash);
                    },
                    None => {
                        proof {
                            assert(false);
                        }
                    },
                }
            }
            cur = parent_index(cur);
            depth = depth + 1;
        }
        proof {
            let r = (t - depth) as nat;
            let j = shr(x, depth as nat);
            lemma_two_pow_mono(r, r);
            assert(j < two_pow(r)) by {
                if r == t && t >= 1 {
                    lemma_bits_bounds(n - 1);
                }
                if r == t && t == 0 {
                    lemma_shr_bits(n - 1, 0);
                    assert(shr(n - 1, 0) == n - 1);
                }
            }
            lemma_heap_leftmost(r, j);
            lemma_shr_bits(x, depth as nat);
        }
        while depth < self.tree_depth - 1
            invariant
                self.wf(),
                x == past_size - 1,
                ps.len() == past_size,
                past_size >= 1,
                h == self.spec_hasher(),
                depth <= self.depth(),
                depth >= bits(x),
                current_hash == level(h, ps, depth as nat)[0],
            decreases self.tree_depth - depth,
        {
            proof {
                lemma_level_len(h, ps, depth as nat);
                lemma_shr_bits(x, depth as nat);
                assert(level(h, ps, (depth + 1) as nat)[0] == pair_at(h, level(h, ps, depth as nat), depth as int, 0));
            }
            current_hash = self.hasher.combine_hash(depth, &current_hash, &current_hash);
            depth = depth + 1;
        }
        Some(current_hash)
    }

    /// The number of positions of a well-formed array holding the leaves.
    closed spec fn total(&self) -> int {
        two_pow(self.rows()) - 1 + self.leaves@.len()
    }

    /// What position `i` of the array holds.
    closed spec fn full(&self, i: int) -> Node<T> {
        full_at(self.spec_hasher(), self.leaves@, i)
    }

    /// Position `j` of level `r` is position `two_pow(r) - 1 + j` of the
    /// array.
    proof fn lemma_full(&self, r: nat, j: int)
        requires
            self.leaves@.len() >= 1,
            r <= self.rows(),
            0 <= j < self.width(r),
        ensures
            self.full(two_pow(r) - 1 + j) == self.expected(r, j),
            two_pow(r) - 1 + j < self.total(),
            j < two_pow(r),
    {
        let n = self.leaves@.len() as int;
        let t = self.rows();
        lemma_two_pow_mono(r, t);
        if t >= 1 {
            lemma_bits_bounds(n - 1);
        } else {
            assert(shr(n - 1, 0) == n - 1);
            lemma_shr_bits(n - 1, 0);
        }
        if r < t {
            lemma_two_pow_mono(r + 1, t);
            assert(two_pow(r + 1) == 2 * two_pow(r));
        }
        assert(two_pow(r + 1) == 2 * two_pow(r));
        assert(two_pow(((r + 1) - 1) as nat) == two_pow(r));
        lemma_bits_unique(two_pow(r) + j, r + 1);
    }

    /// Each position of the array is a position of one of its levels.
    proof fn lemma_row(&self, i: int)
        requires
            self.leaves@.len() >= 1,
            0 <= i < self.total(),
        ensures
            (bits(i + 1) - 1) as nat <= self.rows(),
            0 <= i + 1 - two_pow((bits(i + 1) - 1) as nat) < self.width((bits(i + 1) - 1) as nat),
    {
        let n = self.leaves@.len() as int;
        let t = self.rows();
        lemma_bits_bounds(i + 1);
        let b = bits(i + 1);
        let r = (b - 1) as nat;
        if t >= 1 {
            lemma_bits_bounds(n - 1);
        } else {
            assert(shr(n - 1, 0) == n - 1);
            lemma_shr_bits(n - 1, 0);
        }
        assert(two_pow(t + 1) == 2 * two_pow(t));
        if r > t {
            lemma_two_pow_mono(t + 1, r);
        }
        if r < t {
            assert(two_pow(b) == 2 * two_pow(r));
        }
    }

    /// Rebuild every level above the leaves, when the array holds the leaves
    /// alone.
    fn rehash_all_levels(&mut self)
        requires
            old(self).leaves@.len() >= 1,
            old(self).leaves@.len() <= usize::MAX / 4,
            2 <= old(self).tree_depth < usize::MAX,
            old(self).leaves@.len() <= capacity((old(self).tree_depth - 1) as nat),
            old(self).nodes@ == Seq::new(
                old(self).leaves@.len(),
                |j: int| Node::<T>::Leaf(old(self).leaves@[j]),
            ),
        ensures
            final(self).wf(),
            final(self).leaves == old(self).leaves,
            final(self).hasher == old(self).hasher,
            final(self).tree_depth == old(self).tree_depth,
    {
        let ghost n = self.leaves@.len() as int;
        let ghost t = self.rows();
        let ghost hs = self.leaf_hashes();
        let ghost h = self.spec_hasher();
        let ghost es = self.leaves@;
        proof {
            if t >= 1 {
                lemma_bits_bounds(n - 1);
            } else {
                assert(shr(n - 1, 0) == n - 1);
                lemma_shr_bits(n - 1, 0);
            }
            lemma_two_pow_mono(t, t);
            assert(level(h, hs, 0) == hs);
            assert forall|i: int| two_pow(t) - 1 <= i < self.total() implies self.nodes@[i - (two_pow(t)
                - 1)] == #[trigger] full_at(h, es, i) by {
                self.lemma_row(i);
                let r = (bits(i + 1) - 1) as nat;
                if r < t {
                    lemma_two_pow_mono(r + 1, t);
                    assert(two_pow(bits(i + 1)) == 2 * two_pow(r));
                }
                assert(r == t);
            }
        }
        let num_internal = first_leaf_by_num_leaves(self.nodes.len());
        if num_internal == 0 {
            proof {
                assert(t == 0) by {
                    if t > 0 {
                        lemma_two_pow_mono(1, t);
                        assert(two_pow(1) == 2 * two_pow(0));
                    }
                }
                assert forall|r: nat, j: int|
                    r <= self.rows() && 0 <= j < self.width(r) implies #[trigger] self.cell(r, j)
                    == self.expected(r, j) by {
                    self.lemma_full(r, j);
                }
            }
            return;
        }
        proof {
            lemma_two_pow_mono(1, t);
            assert(two_pow(t) - 1 >= 1);
            assert(t >= 1) by {
                if t == 0 {
                    assert(two_pow(0) == 1);
                }
            }
            assert(two_pow(t) == 2 * two_pow((t - 1) as nat));
            lemma_two_pow_mono((t - 1) as nat, (t - 1) as nat);
            lemma_bits_unique(two_pow(t) - 1, t);
        }
        let internal_depth = depth_at_index(num_internal - 1);
        let mut index_being_added = num_internal - 1;
        loop
            invariant_except_break
                index_being_added < num_internal,
                self.nodes@.len() == self.total() - (index_being_added + 1),
                forall|i: int|
                    index_being_added + 1 <= i < self.total() ==> self.nodes@[i - (index_being_added
                        + 1)] == #[trigger] full_at(h, es, i),
            invariant
                n == self.leaves@.len(),
                n >= 1,
                n <= usize::MAX / 4,
                t == self.rows(),
                t >= 1,
                hs == self.leaf_hashes(),
                h == self.spec_hasher(),
                es == self.leaves@,
                self.leaves == old(self).leaves,
                self.hasher == old(self).hasher,
                self.tree_depth == old(self).tree_depth,
                num_internal == two_pow(t) - 1,
                internal_depth == t,
                n <= two_pow(t),
                two_pow(t) <= 2 * n,
            ensures
                self.nodes@.len() == self.total(),
                forall|i: int| 0 <= i < self.total() ==> self.nodes@[i] == #[trigger] full_at(h, es, i),
            decreases index_being_added,
        {
            let ghost i0 = index_being_added as int;
            let ghost r = (bits(i0 + 1) - 1) as nat;
            let ghost j = i0 + 1 - two_pow(r);
            let ghost l = (t - r) as nat;
            proof {
                self.lemma_row(i0);
                assert(r < t) by {
                    if r == t {
                        lemma_bits_bounds(i0 + 1);
                    }
                }
                assert(two_pow(r + 1) == 2 * two_pow(r));
                lemma_two_pow_mono(r + 1, t);
                let c = (r + 1) as nat;
                lemma_level_len(h, hs, l);
                lemma_level_len(h, hs, (l - 1) as nat);
                lemma_shr_nonneg(n - 1, (l - 1) as nat);
                lemma_last_step(n - 1, (l - 1) as nat);
                assert(((l - 1) + 1) as nat == l);
                if j < level(h, hs, l).len() {
                    assert(level(h, hs, l)[j] == pair_at(h, level(h, hs, (l - 1) as nat), l - 1, j));
                }
                if 2 * j < self.width(c) {
                    self.lemma_full(c, 2 * j);
                    assert(self.nodes@[2 * i0 + 1 - (i0 + 1)] == full_at(h, es, 2 * i0 + 1));
                }
                if 2 * j + 1 < self.width(c) {
                    self.lemma_full(c, 2 * j + 1);
                    assert(self.nodes@[2 * i0 + 2 - (i0 + 1)] == full_at(h, es, 2 * i0 + 2));
                }
                if c == t {
                    assert(level(h, hs, 0) == hs);
                }
                self.lemma_full(r, j);
            }
            let child_node_depth = internal_depth - depth_at_index(index_being_added);
            let left_child_in_nodes = left_child_index(index_being_added) - index_being_added - 1;
            let new_node = match (
                self.extract_hash(left_child_in_nodes),
                self.extract_hash(left_child_in_nodes + 1),
            ) {
                (None, None) => Node::Empty,
                (Some(hash), None) => Node::Internal(
                    self.hasher.combine_hash(child_node_depth, &hash, &hash),
                ),
                (Some(left_hash), Some(right_hash)) => Node::Internal(
                    self.hasher.combine_hash(child_node_depth, &left_hash, &right_hash),
                ),
                (None, Some(_)) => {
                    proof {
                        assert(false);
                    }
                    Node::Empty
                },
            };
            let ghost before = self.nodes@;
            proof {
                assert(new_node == full_at(h, es, i0)) by {
                    assert(self.full(i0) == full_at(h, es, i0));
                }
            }
            self.nodes.push_front(new_node);
            proof {
                assert(self.nodes@ == seq![new_node] + before);
                assert forall|i: int| i0 <= i < self.total() implies self.nodes@[i - i0]
                    == #[trigger] full_at(h, es, i) by {
                    if i > i0 {
                        assert((seq![new_node] + before)[i - i0] == before[i - i0 - 1]);
                        assert(before[i - (i0 + 1)] == full_at(h, es, i));
                    } else {
                        assert((seq![new_node] + before)[0] == new_node);
                    }
                }
            }
            if index_being_added == 0 {
                break;
            }
            index_being_added = index_being_added - 1;
        }
        proof {
            assert forall|r: nat, j: int|
                r <= self.rows() && 0 <= j < self.width(r) implies #[trigger] self.cell(r, j)
                == self.expected(r, j) by {
                self.lemma_full(r, j);
            }
        }
    }

    /// The array's leaves, as a sequence of `Leaf` positions.
    proof fn lemma_leaf_tail(&self)
        requires
            self.wf(),
            self.leaves@.len() >= 1,
        ensures
            self.nodes@.subrange(two_pow(self.rows()) - 1, self.nodes@.len() as int) == Seq::new(
                self.leaves@.len(),
                |j: int| Node::<T>::Leaf(self.leaves@[j]),
            ),
    {
        self.lemma_shape();
        assert forall|j: int| 0 <= j < self.leaves@.len() implies self.nodes@.subrange(
            two_pow(self.rows()) - 1,
            self.nodes@.len() as int,
        )[j] == Node::<T>::Leaf(self.leaves@[j]) by {
            self.lemma_leaf_cell(j);
        }
        assert(self.nodes@.subrange(two_pow(self.rows()) - 1, self.nodes@.len() as int) =~= Seq::new(
            self.leaves@.len(),
            |j: int| Node::<T>::Leaf(self.leaves@[j]),
        ));
    }

    /// Add a leaf to a tree whose levels are all full: the array is rebuilt
    /// with one more level.
    fn add_leaf_rehash(&mut self, element: T::Element)
        requires
            old(self).wf(),
            old(self).leaves@.len() >= 1,
            old(self).leaves@.len() < capacity(old(self).depth()),
            old(self).leaves@.len() + 1 <= usize::MAX / 4,
        ensures
            final(self).wf(),
            final(self).leaves@ == old(self).leaves@.push(element),
            final(self).hasher == old(self).hasher,
            final(self).tree_depth == old(self).tree_depth,
    {
        proof {
            self.lemma_leaf_tail();
            self.lemma_shape();
        }
        let ghost start = two_pow(self.rows()) - 1;
        let ghost leaves_only = self.nodes@.subrange(start, self.nodes@.len() as int);
        let old_leaf_start = first_leaf(self.nodes.len());
        self.nodes.push_back(Node::Leaf(element));
        let ghost pushed = self.nodes@;
        let mut i: usize = 0;
        while i < old_leaf_start
            invariant
                i <= old_leaf_start,
                old_leaf_start == start,
                self.tree_depth == old(self).tree_depth,
                self.hasher == old(self).hasher,
                self.leaves == old(self).leaves,
                start < pushed.len(),
                self.nodes@ == pushed.subrange(i as int, pushed.len() as int),
            decreases old_leaf_start - i,
        {
            self.nodes.pop_front();
            i = i + 1;
        }
        self.leaves = Ghost(old(self).leaves@.push(element));
        proof {
            assert(self.nodes@ =~= Seq::new(
                self.leaves@.len(),
                |j: int| Node::<T>::Leaf(self.leaves@[j]),
            )) by {
                assert forall|j: int| 0 <= j < self.leaves@.len() implies self.nodes@[j] == Node::<
                    T,
                >::Leaf(self.leaves@[j]) by {
                    if j < old(self).leaves@.len() {
                        assert(leaves_only[j] == Node::<T>::Leaf(old(self).leaves@[j]));
                    }
                }
            }
        }
        self.rehash_all_levels();
    }

    /// Rehash the positions on the path from the last leaf up to the root,
    /// the only ones that are stale.
    fn rehash_leaf_path(&mut self)
        requires
            old(self).path_stale(old(self).rows()),
            old(self).leaves@.len() >= 2,
        ensures
            final(self).wf(),
            final(self).leaves == old(self).leaves,
            final(self).hasher == old(self).hasher,
            final(self).tree_depth == old(self).tree_depth,
    {
        let ghost n = self.leaves@.len() as int;
        let ghost m = n - 1;
        let ghost t = self.rows();
        let ghost hs = self.leaf_hashes();
        let ghost h = self.spec_hasher();
        let ghost es = self.leaves@;
        let len = self.nodes.len();
        proof {
            lemma_bits_bounds(n - 1);
            lemma_two_pow_mono(t, t);
            assert(shr(m, 0) == m);
            lemma_bits_within(n, (self.tree_depth - 1) as nat);
        }
        let mut current_position = self.nodes.len() - 1;
        let mut depth: usize = 0;
        while current_position != 0
            invariant
                n == self.leaves@.len(),
                n >= 2,
                m == n - 1,
                t == self.rows(),
                t >= 1,
                n <= two_pow(t),
                hs == self.leaf_hashes(),
                h == self.spec_hasher(),
                es == self.leaves@,
                self.leaves == old(self).leaves,
                self.hasher == old(self).hasher,
                self.tree_depth == old(self).tree_depth,
                len == self.nodes@.len(),
                depth <= t,
                t < usize::MAX,
                m < two_pow(t),
                current_position == two_pow((t - depth) as nat) - 1 + shr(m, depth as nat),
                self.path_stale((t - depth) as nat),
            decreases t - depth,
        {
            let ghost r = (t - depth) as nat;
            let ghost l = depth as nat;
            let ghost j = shr(m, l);
            let ghost s = level(h, hs, l);
            let ghost jj = 2 * (j / 2);
            proof {
                lemma_level_len(h, hs, l);
                lemma_level_len(h, hs, l + 1);
                lemma_shr_nonneg(m, l);
                lemma_shr_nonneg(m, l + 1);
                lemma_last_step(m, l);
                lemma_two_pow_mono(r, r);
                if r == 0 {
                    assert(two_pow(0) == 1);
                    lemma_shr_bits(m, t);
                    assert(false);
                }
                assert(j < self.width(r)) by {
                    if r == t {
                        assert(shr(m, 0) == m);
                    } else {
                        lemma_shr_lt(m, l, r);
                        assert(l + r == t);
                    }
                }
                self.lemma_full(r, j);
                lemma_heap_parent(r, j);
                assert(s.len() == j + 1);
                if r == t {
                    assert(s == hs) by {
                        assert(level(h, hs, 0) == hs);
                    }
                }
                self.lemma_stale_cell(r, r, jj);
                if jj + 1 < self.width(r) {
                    self.lemma_stale_cell(r, r, jj + 1);
                }
                if r < t {
                    lemma_two_pow_mono(r + 1, t);
                    assert(two_pow(r + 1) == 2 * two_pow(r));
                }
                assert(level(h, hs, l + 1)[j / 2] == pair_at(h, s, l as int, j / 2));
            }
            let parent_position = parent_index(current_position);
            let left;
            let right;
            if is_left_child(current_position) {
                left = self.extract_hash(current_position);
                right = self.extract_hash(current_position + 1);
            } else {
                left = self.extract_hash(current_position - 1);
                right = self.extract_hash(current_position);
            }
            let parent_hash = match (left, right) {
                (Some(hash), None) => self.hasher.combine_hash(depth, &hash, &hash),
                (Some(left_hash), Some(right_hash)) => self.hasher.combine_hash(
                    depth,
                    &left_hash,
                    &right_hash,
                ),
                _ => {
                    proof {
                        assert(false);
                    }
                    return;
                },
            };
            let ghost before = *self;
            replace_at(&mut self.nodes, parent_position, Node::Internal(parent_hash));
            proof {
                self.lemma_rehash_step(before, r, j);
            }
            depth = depth + 1;
            current_position = parent_position;
        }
        proof {
            assert(two_pow(0) == 1);
            if depth < t {
                lemma_two_pow_mono(1, (t - depth) as nat);
                assert(two_pow(1) == 2 * two_pow(0));
                lemma_shr_nonneg(m, depth as nat);
            }
            assert(depth == t);
            assert forall|r: nat, j: int|
                r <= self.rows() && 0 <= j < self.width(r) implies #[trigger] self.cell(r, j)
                == self.expected(r, j) by {
                self.lemma_stale_cell(0, r, j);
            }
        }
    }

    /// The array is well formed for its leaves, but for the positions on the
    /// path from the last leaf up, above level `r`.
    closed spec fn path_stale(&self, r: nat) -> bool {
        let n = self.leaves@.len() as int;
        &&& 2 <= self.tree_depth < usize::MAX
        &&& n <= capacity((self.tree_depth - 1) as nat)
        &&& n <= usize::MAX / 4
        &&& n >= 1
        &&& self.nodes@.len() == two_pow(self.rows()) - 1 + n
        &&& forall|r2: nat, j: int|
            r2 <= self.rows() && 0 <= j < self.width(r2) && !(r2 < r && j == shr(
                n - 1,
                (self.rows() - r2) as nat,
            )) ==> #[trigger] self.cell(r2, j) == self.expected(r2, j)
    }

    proof fn lemma_stale_cell(&self, r0: nat, r: nat, j: int)
        requires
            self.path_stale(r0),
            r0 <= r,
            r <= self.rows(),
            0 <= j < self.width(r),
        ensures
            self.cell(r, j) == self.expected(r, j),
    {
        assert(self.cell(r, j) == self.expected(r, j));
    }

    /// Writing the parent of position `j` of level `r`, on the path of the
    /// last leaf, leaves one stale level fewer.
    proof fn lemma_rehash_step(&self, before: Self, r: nat, j: int)
        requires
            before.path_stale(r),
            r >= 1,
            r <= before.rows(),
            j == shr(before.leaves@.len() - 1, (before.rows() - r) as nat),
            0 <= j < before.width(r),
            self.leaves == before.leaves,
            self.hasher == before.hasher,
            self.tree_depth == before.tree_depth,
            self.nodes@ == before.nodes@.update(
                two_pow((r - 1) as nat) - 1 + j / 2,
                before.expected((r - 1) as nat, j / 2),
            ),
        ensures
            self.path_stale((r - 1) as nat),
    {
        before.lemma_full(r, j);
        lemma_heap_parent(r, j);
        before.lemma_full((r - 1) as nat, j / 2);
        assert forall|r2: nat, j2: int|
            r2 <= self.rows() && 0 <= j2 < self.width(r2) && !(r2 < r - 1 && j2 == shr(
                self.leaves@.len() - 1,
                (self.rows() - r2) as nat,
            )) implies #[trigger] self.cell(r2, j2) == self.expected(r2, j2) by {
            self.lemma_full(r2, j2);
            before.lemma_full(r, j);
            lemma_heap_parent(r, j);
            before.lemma_full((r - 1) as nat, j / 2);
            self.lemma_full_index(r2, j2);
            before.lemma_full_index((r - 1) as nat, j / 2);
            if r2 != r - 1 || j2 != j / 2 {
                assert(before.cell(r2, j2) == before.expected(r2, j2));
            }
        }
        assert(self.nodes@.len() == before.nodes@.len());
        assert(self.rows() == before.rows());
        assert(2 <= self.tree_depth < usize::MAX);
        assert(self.leaves@.len() >= 1);
        assert(self.nodes@.len() == two_pow(self.rows()) - 1 + self.leaves@.len());
    }

    /// Distinct positions of the levels are distinct positions of the
    /// array.
    proof fn lemma_full_index(&self, r: nat, j: int)
        requires
            0 <= j < two_pow(r),
        ensures
            bits(two_pow(r) + j) == r + 1,
    {
        lemma_two_pow_mono(r, r);
        assert(two_pow(r + 1) == 2 * two_pow(r));
        assert(two_pow(((r + 1) - 1) as nat) == two_pow(r));
        lemma_bits_unique(two_pow(r) + j, r + 1);
    }

    /// A leaf pushed onto a tree with room on its last level leaves only the
    /// positions on the new leaf's path stale.
    proof fn lemma_push_leaf(&self, before: Self)
        requires
            before.wf(),
            before.leaves@.len() >= 1,
            before.leaves@.len() < two_pow(before.rows()),
            self.leaves@.len() == before.leaves@.len() + 1,
            self.leaves@.subrange(0, before.leaves@.len() as int) == before.leaves@,
            self.leaves@.len() <= capacity((self.tree_depth - 1) as nat),
            self.leaves@.len() <= usize::MAX / 4,
            self.hasher == before.hasher,
            self.tree_depth == before.tree_depth,
            self.nodes@ == before.nodes@.push(Node::<T>::Leaf(self.leaves@[before.leaves@.len() as int])),
        ensures
            self.rows() == before.rows(),
            self.path_stale(self.rows()),
    {
        let n = before.leaves@.len() as int;
        let t = before.rows();
        let h = self.spec_hasher();
        let hs = before.leaf_hashes();
        let hs2 = self.leaf_hashes();
        lemma_bits_bounds(n);
        lemma_shr_bits(n, bits(n - 1));
        lemma_shr_bits(n - 1, bits(n - 1));
        if bits(n) > t {
            lemma_two_pow_mono(t, (bits(n) - 1) as nat);
        }
        lemma_shr_bits(n, t);
        assert(bits(n) == t) by {
            lemma_shr_bits(n - 1, t);
            lemma_shr_mono(n - 1, n, t);
            if t >= 1 {
                lemma_shr_bits(n - 1, (t - 1) as nat);
                lemma_shr_mono(n - 1, n, (t - 1) as nat);
                lemma_shr_bits(n, (t - 1) as nat);
            }
            if bits(n) < t {
                lemma_shr_bits(n, bits(n));
                lemma_two_pow_mono(bits(n), t);
            }
        }
        assert(hs2.subrange(0, n) =~= hs) by {
            assert forall|k: int| 0 <= k < n implies hs2[k] == hs[k] by {
                assert(self.leaves@[k] == self.leaves@.subrange(0, n)[k]);
            }
        }
        assert(hs.subrange(0, n) =~= hs);
        assert forall|r2: nat, j2: int|
            r2 <= self.rows() && 0 <= j2 < self.width(r2) && !(r2 < self.rows() && j2 == shr(
                self.leaves@.len() - 1,
                (self.rows() - r2) as nat,
            )) implies #[trigger] self.cell(r2, j2) == self.expected(r2, j2) by {
            let l = (t - r2) as nat;
            if r2 == t {
                if j2 < n {
                    before.lemma_leaf_cell(j2);
                    assert(self.leaves@[j2] == self.leaves@.subrange(0, n)[j2]);
                }
            } else {
                before.lemma_internal_cell(r2, j2);
                lemma_level_len(h, hs, l);
                lemma_level_len(h, hs2, l);
                lemma_shr_succ(n - 1, l);
                lemma_shr_nonneg(n - 1, l);
                if j2 < shr(n, l) {
                    lemma_level_prefix(h, hs, hs2, n, l, j2);
                }
                lemma_two_pow_mono(r2 + 1, t);
                assert(two_pow(r2 + 1) == 2 * two_pow(r2));
            }
        }
    }

    /// Insert `element` as the new last leaf and update the hashes. The
    /// tree must not be full.
    pub fn add(&mut self, element: T::Element)
        requires
            old(self).wf(),
            old(self).elements().len() < capacity(old(self).depth()),
            old(self).elements().len() + 1 <= usize::MAX / 4,
        ensures
            final(self).wf(),
            final(self).elements() == old(self).elements().push(element),
            final(self).depth() == old(self).depth(),
            final(self).spec_hasher() == old(self).spec_hasher(),
    {
        if self.is_empty() {
            self.nodes.push_back(Node::Leaf(element));
            self.leaves = Ghost(old(self).leaves@.push(element));
            proof {
                assert(self.rows() == 0);
                assert(two_pow(0) == 1);
                lemma_two_pow_mono(0, (self.tree_depth - 1) as nat);
                assert forall|r: nat, j: int|
                    r <= self.rows() && 0 <= j < self.width(r) implies #[trigger] self.cell(r, j)
                    == self.expected(r, j) by {
                    assert(r == 0 && j == 0);
                }
            }
            return;
        }
        proof {
            self.lemma_shape();
            let n = self.leaves@.len() as int;
            let t = self.rows();
            if n >= 2 {
                lemma_bits_bounds(n - 1);
                assert(two_pow(t) == 2 * two_pow((t - 1) as nat));
            } else {
                assert(t == 0);
                assert(two_pow(0) == 1);
            }
            assert(self.nodes@.len() < usize::MAX);
            if n < two_pow(t) {
                lemma_heap_leftmost(t, n);
            } else {
                assert(two_pow(t + 1) == 2 * two_pow(t));
                lemma_two_pow_mono(t + 1, t + 1);
                assert(two_pow(t + 2) == 2 * two_pow(t + 1));
                assert(two_pow(((t + 2) - 1) as nat) == two_pow(t + 1));
                lemma_bits_unique(two_pow(t + 1) as int, t + 2);
                lemma_is_two_pow(two_pow(t + 1) as int);
            }
        }
        if is_complete(self.nodes.len()) {
            self.add_leaf_rehash(element);
        } else {
            let ghost before = *self;
            self.nodes.push_back(Node::Leaf(element));
            self.leaves = Ghost(old(self).leaves@.push(element));
            proof {
                assert(self.leaves@.subrange(0, before.leaves@.len() as int) =~= before.leaves@);
                self.lemma_push_leaf(before);
            }
            self.rehash_leaf_path();
        }
    }

    /// Cut the tree back to its first `past_size` leaves; nothing changes
    /// when `past_size` is not below the number of leaves.
    pub fn truncate(&mut self, past_size: usize)
        requires
            old(self).wf(),
        ensures
            final(self).wf(),
            final(self).elements() == if past_size < old(self).elements().len() {
                old(self).elements().subrange(0, past_size as int)
            } else {
                old(self).elements()
            },
            final(self).depth() == old(self).depth(),
            final(self).spec_hasher() == old(self).spec_hasher(),
            past_size >= old(self).elements().len() ==> final(self).positions() == old(
                self,
            ).positions(),
    {
        if past_size >= self.len() {
            return;
        }
        if past_size == 0 {
            self.nodes.clear();
            self.leaves = Ghost(Seq::empty());
            proof {
                assert(self.leaves@ =~= old(self).leaves@.subrange(0, 0));
            }
            return;
        }
        proof {
            self.lemma_leaf_tail();
            self.lemma_shape();
        }
        let ghost start = two_pow(self.rows()) - 1;
        let ghost leaves_only = self.nodes@.subrange(start, self.nodes@.len() as int);
        let ghost full_len = self.nodes@.len() as int;
        let old_leaf_start = first_leaf(self.nodes.len());
        let num_to_remove = self.len() - past_size;
        let mut i: usize = 0;
        while i < num_to_remove
            invariant
                i <= num_to_remove,
                start >= 0,
                num_to_remove < full_len - start,
                self.nodes@ == old(self).nodes@.subrange(0, full_len - i),
                full_len == old(self).nodes@.len(),
                self.tree_depth == old(self).tree_depth,
                self.hasher == old(self).hasher,
                self.leaves == old(self).leaves,
            decreases num_to_remove - i,
        {
            let ghost before = self.nodes@;
            proof {
                assert(0 <= full_len - i <= old(self).nodes@.len());
                assert(old(self).nodes@.subrange(0, full_len - i).len() == full_len - i);
                assert(self.nodes@.len() == full_len - i);
            }
            let popped = self.nodes.pop_back();
            proof {
                assert(before.len() == full_len - i);
                assert(popped is Some);
                assert(self.nodes@ =~= old(self).nodes@.subrange(0, full_len - i - 1));
            }
            i = i + 1;
        }
        let ghost cut = self.nodes@;
        let mut i: usize = 0;
        while i < old_leaf_start
            invariant
                i <= old_leaf_start,
                old_leaf_start == start,
                start < cut.len(),
                self.nodes@ == cut.subrange(i as int, cut.len() as int),
                self.tree_depth == old(self).tree_depth,
                self.hasher == old(self).hasher,
                self.leaves == old(self).leaves,
            decreases old_leaf_start - i,
        {
            self.nodes.pop_front();
            i = i + 1;
        }
        self.leaves = Ghost(old(self).leaves@.subrange(0, past_size as int));
        proof {
            assert(self.nodes@ =~= Seq::new(
                self.leaves@.len(),
                |j: int| Node::<T>::Leaf(self.leaves@[j]),
            )) by {
                assert forall|j: int| 0 <= j < self.leaves@.len() implies self.nodes@[j] == Node::<
                    T,
                >::Leaf(self.leaves@[j]) by {
                    assert(leaves_only[j] == Node::<T>::Leaf(old(self).leaves@[j]));
                }
            }
        }
        self.rehash_all_levels();
    }

    /// Whether the tree holds as many leaves as it has room for.
    pub fn is_full(&self) -> (r: bool)
        requires
            self.wf(),
        ensures
            r == (self.elements().len() >= capacity(self.depth())),
    {
        let n = self.len();
        let mut x = n;
        let mut i: usize = 0;
        let d = self.tree_depth - 1;
        while i < d && x > 0
            invariant
                i <= d,
                d == self.depth(),
                n == self.elements().len(),
                x == shr(n as int, i as nat),
            decreases d - i,
        {
            x = x / 2;
            i = i + 1;
        }
        proof {
            lemma_capacity(n as int, d as nat);
            if x == 0 {
                lemma_shr_bits(n as int, i as nat);
                lemma_shr_bits(n as int, d as nat);
            }
        }
        x > 0
    }

    /// Append the serialized tree to `writer`: the depth byte (the number
    /// of levels, root included), the leaf count as a little-endian `u32`,
    /// then each element's encoding.
    pub fn write(&self, writer: &mut Vec<u8>) -> (r: Result<(), CodecError>)
        requires
            self.wf(),
        ensures
            r is Ok <==> self.depth() + 1 <= 255 && self.elements().len() <= u32::MAX,
            r is Ok ==> final(writer)@ == old(writer)@ + tree_bytes(
                (self.depth() + 1) as u8,
                self.elements(),
            ),
            r is Err ==> final(writer)@ == old(writer)@ && r == Err::<(), CodecError>(
                CodecError::TooLarge,
            ),
    {
        let notes = self.iter_notes();
        if self.tree_depth > 255 || notes.len() > 0xffff_ffff {
            return Err(CodecError::TooLarge);
        }
        writer.push(self.tree_depth as u8);
        write_u32_le(writer, notes.len() as u32);
        let ghost head = old(writer)@ + seq![(self.depth() + 1) as u8] + le_bytes(
            self.elements().len() as u32,
        );
        proof {
            assert(writer@ =~= head);
            assert(self.elements().subrange(0, 0) =~= Seq::<T::Element>::empty());
            assert(writer@ =~= head + encode_all(self.elements().subrange(0, 0)));
        }
        let mut i: usize = 0;
        while i < notes.len()
            invariant
                i <= notes@.len(),
                notes@ == self.elements(),
                writer@ == head + encode_all(self.elements().subrange(0, i as int)),
            decreases notes@.len() - i,
        {
            notes[i].write(writer);
            proof {
                let es = self.elements().subrange(0, i as int + 1);
                assert(es.drop_last() =~= self.elements().subrange(0, i as int));
                assert(es.last() == self.elements()[i as int]);
                assert(writer@ =~= head + encode_all(es));
            }
            i = i + 1;
        }
        proof {
            assert(self.elements().subrange(0, i as int) =~= self.elements());
            assert(writer@ =~= old(writer)@ + tree_bytes((self.depth() + 1) as u8, self.elements()));
        }
        Ok(())
    }

    /// Rebuild a tree from its serialized form, adding the elements one by
    /// one.
    pub fn read(hasher: Arc<T>, bytes: &[u8]) -> (r: Result<Box<Self>, CodecError>)
        ensures
            r matches Ok(t) ==> t.wf() && t.spec_hasher() == *hasher,
            r matches Ok(t) ==> bytes@ == tree_bytes((t.depth() + 1) as u8, t.elements()),
            bytes@.len() < 5 ==> r == Err::<Box<Self>, CodecError>(CodecError::Malformed),
            bytes@.len() >= 5 && bytes@[0] < 2 ==> r == Err::<Box<Self>, CodecError>(
                CodecError::BadDepth,
            ),
            forall|d: u8, es: Seq<T::Element>|
                #![trigger tree_bytes(d, es)]
                bytes@ == tree_bytes(d, es) && 2 <= d && es.len() <= capacity((d - 1) as nat)
                    && es.len() <= usize::MAX / 4 && es.len() <= u32::MAX ==> (r matches Ok(t) && t.elements() == es && t.depth() == d - 1),
    {
        if bytes.len() < 5 {
            proof {
                assert forall|d: u8, es: Seq<T::Element>|
                    #![trigger tree_bytes(d, es)]
                    bytes@ == tree_bytes(d, es) implies false by {
                    assert(tree_bytes(d, es).len() >= 5);
                }
            }
            return Err(CodecError::Malformed);
        }
        let tree_depth = bytes[0];
        let count = match read_u32_le(bytes, 1) {
            Some(c) => c,
            None => {
                return Err(CodecError::Malformed);
            },
        };
        proof {
            lemma_le_bytes_of_value(bytes@.subrange(1, 5));
            assert(bytes@.subrange(5, 5) =~= encode_all(Seq::<T::Element>::empty()));
            assert forall|d: u8, es: Seq<T::Element>|
                #![trigger tree_bytes(d, es)]
                bytes@ == tree_bytes(d, es) && es.len() <= u32::MAX implies d == tree_depth && count == es.len() && bytes@.subrange(
                    5,
                    bytes@.len() as int,
                ) == encode_all(es) by {
                let t = tree_bytes(d, es);
                assert(t[0] == d);
                assert(bytes@.subrange(1, 5) =~= le_bytes(es.len() as u32));
                lemma_le_round_trip(es.len() as u32);
                assert(bytes@.subrange(5, bytes@.len() as int) =~= encode_all(es));
            }
        }
        if tree_depth < 2 {
            return Err(CodecError::BadDepth);
        }
        let mut tree = Self::new_with_size(hasher, tree_depth as usize);
        let mut pos: usize = 5;
        let mut i: u32 = 0;
        while i < count
            invariant
                tree.wf(),
                tree.spec_hasher() == *hasher,
                tree.depth() == tree_depth - 1,
                bytes@.len() >= 5,
                bytes@[0] == tree_depth,
                tree_depth >= 2,
                tree.elements().len() == i,
                i <= count,
                5 <= pos <= bytes@.len(),
                bytes@.subrange(1, 5) == le_bytes(count),
                bytes@.subrange(5, pos as int) == encode_all(tree.elements()),
                forall|d: u8, es: Seq<T::Element>|
                    #![trigger tree_bytes(d, es)]
                    bytes@ == tree_bytes(d, es) && es.len() <= u32::MAX ==> d == tree_depth && count == es.len()
                        && bytes@.subrange(5, bytes@.len() as int) == encode_all(es),
                forall|d: u8, es: Seq<T::Element>|
                    #![trigger tree_bytes(d, es)]
                    bytes@ == tree_bytes(d, es) && es.len() <= u32::MAX ==> tree.elements() == es.subrange(0, i as int)
                        && pos == 5 + encode_all(es.subrange(0, i as int)).len(),
            decreases count - i,
        {
            if tree.is_full() || tree.len() >= usize::MAX / 4 {
                return Err(CodecError::TooManyLeaves);
            }
            let hasher_ref = tree.hasher();
            match hasher_ref.read_element(bytes, pos) {
                None => {
                    proof {
                        assert forall|d: u8, es: Seq<T::Element>|
                            #![trigger tree_bytes(d, es)]
                            bytes@ == tree_bytes(d, es) && 2 <= d && es.len() <= capacity(
                                (d - 1) as nat,
                            ) && es.len() <= usize::MAX / 4 && es.len() <= u32::MAX implies false by {
                            lemma_encode_step(es, i as int);
                            lemma_encode_prefix(es, (i + 1) as int);
                            let e = es[i as int];
                            let lo: int = 5 + encode_all(es.subrange(0, i as int)).len() as int;
                            let rest = bytes@.subrange(5, bytes@.len() as int);
                            let pa = encode_all(es.subrange(0, i as int));
                            let pb = encode_all(es.subrange(0, i as int + 1));
                            let pe = e.spec_encoding();
                            assert(rest.subrange(0, pb.len() as int) == pb);
                            assert(rest.subrange(pa.len() as int, pa.len() + pe.len() as int) =~= pb.subrange(
                                pa.len() as int,
                                pa.len() + pe.len() as int,
                            ));
                            assert(pb.subrange(pa.len() as int, pa.len() + pe.len() as int) =~= pe);
                            assert(bytes@.subrange(lo, lo + pe.len() as int) =~= rest.subrange(
                                pa.len() as int,
                                pa.len() + pe.len() as int,
                            ));
                        }
                    }
                    return Err(CodecError::Malformed);
                },
                Some((element, next)) => {
                    proof {
                        assert forall|d: u8, es: Seq<T::Element>|
                            #![trigger tree_bytes(d, es)]
                            bytes@ == tree_bytes(d, es) && es.len() <= u32::MAX implies element == es[i as int] && next == 5
                                + encode_all(es.subrange(0, i as int + 1)).len() by {
                            lemma_encode_step(es, i as int);
                            lemma_encode_prefix(es, (i + 1) as int);
                            let e = es[i as int];
                            let lo: int = 5 + encode_all(es.subrange(0, i as int)).len() as int;
                            let rest = bytes@.subrange(5, bytes@.len() as int);
                            let pa = encode_all(es.subrange(0, i as int));
                            let pb = encode_all(es.subrange(0, i as int + 1));
                            let pe = e.spec_encoding();
                            assert(rest.subrange(0, pb.len() as int) == pb);
                            assert(rest.subrange(pa.len() as int, pa.len() + pe.len() as int) =~= pb.subrange(
                                pa.len() as int,
                                pa.len() + pe.len() as int,
                            ));
                            assert(pb.subrange(pa.len() as int, pa.len() + pe.len() as int) =~= pe);
                            assert(bytes@.subrange(lo, lo + pe.len() as int) =~= rest.subrange(
                                pa.len() as int,
                                pa.len() + pe.len() as int,
                            ));
                        }
                    }
                    let ghost before = tree.elements();
                    let ghost old_pos = pos;
                    tree.add(element);
                    pos = next;
                    proof {
                        assert(tree.elements().drop_last() =~= before);
                        assert(bytes@.subrange(5, pos as int) =~= bytes@.subrange(5, old_pos as int)
                            + bytes@.subrange(old_pos as int, pos as int));
                        assert forall|d: u8, es: Seq<T::Element>|
                            #![trigger tree_bytes(d, es)]
                            bytes@ == tree_bytes(d, es) && es.len() <= u32::MAX implies tree.elements() == es.subrange(0, i as int + 1) by {
                            assert(es.subrange(0, i as int + 1) =~= es.subrange(0, i as int).push(es[i as int]));
                        }
                    }
                },
            }
            i = i + 1;
        }
        proof {
            assert forall|d: u8, es: Seq<T::Element>|
                #![trigger tree_bytes(d, es)]
                bytes@ == tree_bytes(d, es) && es.len() <= u32::MAX implies tree.elements() == es by {
                assert(es.subrange(0, es.len() as int) =~= es);
            }
        }
        if pos != bytes.len() {
            proof {
                assert forall|d: u8, es: Seq<T::Element>|
                    #![trigger tree_bytes(d, es)]
                    bytes@ == tree_bytes(d, es) && es.len() <= u32::MAX implies false by {
                    assert(es.subrange(0, es.len() as int) =~= es);
                }
            }
            return Err(CodecError::Malformed);
        }
        proof {
            assert(bytes@ =~= tree_bytes((tree.depth() + 1) as u8, tree.elements()));
        }
        Ok(tree)
    }
}

impl<T: MerkleHasher> MerkleTree for VectorMerkleTree<T> {
    type Hasher = T;

    open spec fn spec_elements(&self) -> Seq<T::Element> {
        self.elements()
    }

    open spec fn spec_depth(&self) -> nat {
        self.depth()
    }

    open spec fn spec_tree_hasher(&self) -> T {
        self.spec_hasher()
    }

    open spec fn spec_wf(&self) -> bool {
        self.wf()
    }

    proof fn lemma_bounds(&self) {
        self.lemma_wf_bounds();
    }

    fn read(hasher: Arc<T>, bytes: &[u8]) -> (r: Result<Box<Self>, CodecError>) {
        VectorMerkleTree::read(hasher, bytes)
    }

    fn hasher(&self) -> (r: Arc<T>) {
        VectorMerkleTree::hasher(self)
    }

    fn add(&mut self, element: T::Element) {
        VectorMerkleTree::add(self, element)
    }

    fn get(&self, position: usize) -> (r: Option<T::Element>) {
        VectorMerkleTree::get(self, position)
    }

    fn len(&self) -> (r: usize) {
        VectorMerkleTree::len(self)
    }

    fn truncate(&mut self, past_size: usize) {
        VectorMerkleTree::truncate(self, past_size)
    }

    fn iter_notes(&self) -> (r: Vec<T::Element>) {
        VectorMerkleTree::iter_notes(self)
    }

    fn root_hash(&self) -> (r: Option<HashOf<T>>) {
        proof {
            assert(self.leaf_hashes() =~= hashes_of(self.elements()));
        }
        VectorMerkleTree::root_hash(self)
    }

    fn past_root(&self, past_size: usize) -> (r: Option<HashOf<T>>) {
        proof {
            assert(self.leaf_hashes() =~= hashes_of(self.elements()));
        }
        VectorMerkleTree::past_root(self, past_size)
    }

    fn contained(&self, value: &T::Element, past_size: usize) -> (r: bool) {
        let r = VectorMerkleTree::contained(self, value, past_size);
        proof {
            if r {
                let k = choose|k: int|
                    0 <= k < past_size && k < self.elements().len() && self.elements()[k] == *value;
                assert(self.spec_elements()[k] == *value);
            }
        }
        r
    }

    fn contains(&self, value: &T::Element) -> (r: bool) {
        VectorMerkleTree::contains(self, value)
    }

    fn witness(&self, position: usize) -> (r: Option<Witness<T>>) {
        proof {
            assert(self.leaf_hashes() =~= hashes_of(self.elements()));
        }
        VectorMerkleTree::witness(self, position)
    }

    fn write(&self, writer: &mut Vec<u8>) -> (r: Result<(), CodecError>) {
        VectorMerkleTree::write(self, writer)
    }
}

} // verus!
