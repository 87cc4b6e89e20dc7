//! Properties that hold of every tree, stated over the model that the
//! trees' contracts speak of.
use std::sync::Arc;
use vstd::prelude::*;

use crate::codec::{tree_bytes, CodecError};
use crate::linked::LinkedMerkleTree;
use crate::model::{auth_path, capacity, fold_path, lemma_capacity, lemma_fold_auth_path, root_of};
use crate::vector::VectorMerkleTree;
use crate::{hashes_of, HashOf, MerkleHasher, MerkleTree, WitnessNode};

verus! {

/// Every leaf's authentication path has one entry per combining level, and
/// following it from the leaf's own hash reaches the root: a witness that
/// either tree hands out verifies against the leaf it was made for.
pub proof fn law_witness_verifies<H: MerkleHasher>(h: H, hs: Seq<HashOf<H>>, depth: nat, pos: int)
    requires
        0 <= pos < hs.len(),
        hs.len() <= capacity(depth),
    ensures
        auth_path(h, hs, depth, pos).len() == depth,
        fold_path(h, hs[pos], auth_path(h, hs, depth, pos), depth) == root_of(h, hs, depth),
{
    lemma_fold_auth_path(h, hs, depth, pos, depth);
    lemma_capacity(pos, depth);
}

/// Where the hasher has no collisions, a path leads two different leaf
/// hashes to two different roots: a witness verifies no other leaf.
pub proof fn law_witness_rejects_other_leaves<H: MerkleHasher>(
    h: H,
    x: HashOf<H>,
    y: HashOf<H>,
    path: Seq<WitnessNode<HashOf<H>>>,
    i: nat,
)
    requires
        x != y,
        i <= path.len(),
        forall|d: int, a: HashOf<H>, b: HashOf<H>, c: HashOf<H>, e: HashOf<H>|
            #[trigger] h.spec_combine(d, a, b) == #[trigger] h.spec_combine(d, c, e) ==> a == c && b
                == e,
    ensures
        fold_path(h, x, path, i) != fold_path(h, y, path, i),
    decreases i,
{
    if i > 0 {
        law_witness_rejects_other_leaves(h, x, y, path, (i - 1) as nat);
    }
}

/// The root a tree had at its own size is its current root.
pub proof fn law_past_root_at_len<H: MerkleHasher>(h: H, hs: Seq<HashOf<H>>, depth: nat)
    ensures
        root_of(h, hs.subrange(0, hs.len() as int), depth) == root_of(h, hs, depth),
{
    assert(hs.subrange(0, hs.len() as int) =~= hs);
}

/// Inserting the leaves of `s` and cutting the tree back to its first `k`
/// leaves gives the arena, node for node and leaf for leaf, that inserting
/// only those `k` leaves gives: `truncate` leaves a well-formed tree of the
/// shorter leaves, and a well-formed tree's arena is decided by its hasher,
/// depth and leaves.
pub proof fn law_truncate_is_fresh_build<T: MerkleHasher>(
    cut: &LinkedMerkleTree<T>,
    fresh: &LinkedMerkleTree<T>,
    s: Seq<T::Element>,
    k: int,
)
    requires
        0 <= k <= s.len(),
        cut.wf(),
        fresh.wf(),
        cut.elements() == s.subrange(0, k),
        fresh.elements() == s.subrange(0, k),
        cut.depth() == fresh.depth(),
        cut.spec_hasher() == fresh.spec_hasher(),
    ensures
        cut.arena_nodes() == fresh.arena_nodes(),
        cut.arena_leaves() == fresh.arena_leaves(),
{
    cut.lemma_same_leaves_same_arena(fresh);
}

/// The same for the array of a vector tree: cut back to `k` leaves, it is
/// the array that inserting only those leaves builds.
pub proof fn law_vector_truncate_is_fresh_build<T: MerkleHasher>(
    cut: &VectorMerkleTree<T>,
    fresh: &VectorMerkleTree<T>,
    s: Seq<T::Element>,
    k: int,
)
    requires
        0 <= k <= s.len(),
        cut.wf(),
        fresh.wf(),
        cut.elements() == s.subrange(0, k),
        fresh.elements() == s.subrange(0, k),
        cut.spec_hasher() == fresh.spec_hasher(),
    ensures
        cut.positions() == fresh.positions(),
{
    cut.lemma_same_leaves_same_array(fresh);
}

/// Every witness a well-formed tree hands out verifies against the hash of
/// the leaf it was made for: the path has one entry per combining level and
/// leads from that hash to the tree's root.
pub proof fn law_tree_witness_verifies<M: MerkleTree>(t: &M, p: int)
    requires
        t.spec_wf(),
        0 <= p < t.spec_elements().len(),
    ensures
        auth_path(t.spec_tree_hasher(), hashes_of(t.spec_elements()), t.spec_depth(), p).len()
            == t.spec_depth(),
        fold_path(
            t.spec_tree_hasher(),
            hashes_of(t.spec_elements())[p],
            auth_path(t.spec_tree_hasher(), hashes_of(t.spec_elements()), t.spec_depth(), p),
            t.spec_depth(),
        ) == root_of(t.spec_tree_hasher(), hashes_of(t.spec_elements()), t.spec_depth()),
{
    t.lemma_bounds();
    law_witness_verifies(t.spec_tree_hasher(), hashes_of(t.spec_elements()), t.spec_depth(), p);
}

/// Where the hasher has no collisions, a witness of a well-formed tree
/// rejects every hash but that of its own leaf.
pub proof fn law_tree_witness_rejects<M: MerkleTree>(t: &M, p: int, other: HashOf<M::Hasher>)
    requires
        t.spec_wf(),
        0 <= p < t.spec_elements().len(),
        other != hashes_of(t.spec_elements())[p],
        forall|d: int, a: HashOf<M::Hasher>, b: HashOf<M::Hasher>, c: HashOf<M::Hasher>, e: HashOf<M::Hasher>|
            #[trigger] t.spec_tree_hasher().spec_combine(d, a, b) == #[trigger] t.spec_tree_hasher().spec_combine(d, c, e)
                ==> a == c && b == e,
    ensures
        fold_path(
            t.spec_tree_hasher(),
            other,
            auth_path(t.spec_tree_hasher(), hashes_of(t.spec_elements()), t.spec_depth(), p),
            t.spec_depth(),
        ) != root_of(t.spec_tree_hasher(), hashes_of(t.spec_elements()), t.spec_depth()),
{
    law_tree_witness_verifies(t, p);
    law_witness_rejects_other_leaves(
        t.spec_tree_hasher(),
        other,
        hashes_of(t.spec_elements())[p],
        auth_path(t.spec_tree_hasher(), hashes_of(t.spec_elements()), t.spec_depth(), p),
        t.spec_depth(),
    );
}

/// Writing a well-formed tree and reading the bytes back gives a tree of
/// the same depth, leaves and hasher, and so the same root and the same
/// witness for every leaf. `bytes` is what `write` appends for `t`, and `r`
/// is what `read` returns for them.
pub proof fn law_round_trip<M: MerkleTree>(
    t: &M,
    hasher: Arc<M::Hasher>,
    bytes: &[u8],
    r: Result<Box<M>, CodecError>,
)
    requires
        t.spec_wf(),
        t.spec_depth() + 1 <= 255,
        t.spec_elements().len() <= u32::MAX,
        t.spec_elements().len() <= usize::MAX / 4,
        *hasher == t.spec_tree_hasher(),
        bytes@ == tree_bytes((t.spec_depth() + 1) as u8, t.spec_elements()),
        call_ensures(M::read, (hasher, bytes), r),
    ensures
        r matches Ok(u) && u.spec_elements() == t.spec_elements() && u.spec_depth()
            == t.spec_depth() && u.spec_tree_hasher() == t.spec_tree_hasher(),
        r matches Ok(u) ==> root_of(u.spec_tree_hasher(), hashes_of(u.spec_elements()), u.spec_depth())
            == root_of(t.spec_tree_hasher(), hashes_of(t.spec_elements()), t.spec_depth()),
        r matches Ok(u) ==> forall|p: int|
            #![trigger auth_path(u.spec_tree_hasher(), hashes_of(u.spec_elements()), u.spec_depth(), p)]
            auth_path(u.spec_tree_hasher(), hashes_of(u.spec_elements()), u.spec_depth(), p)
                == auth_path(t.spec_tree_hasher(), hashes_of(t.spec_elements()), t.spec_depth(), p),
{
    t.lemma_bounds();
    let d = (t.spec_depth() + 1) as u8;
    assert(d - 1 == t.spec_depth());
    assert(bytes@ == tree_bytes(d, t.spec_elements()));
}

} // verus!
