//! A Merkle tree whose internal nodes live in an arena and refer to each
//! other by index. Each internal node caches the hash of its sibling rather
//! than its own, so that an authentication path can be read off a walk up
//! the tree, and only the rightmost path is rehashed after a change.
use std::sync::Arc;
use vstd::prelude::*;

use crate::model::{
    auth_path, bits, capacity, lemma_bits_le, lemma_bits_within, lemma_capacity, lemma_level_len,
    lemma_level_prefix, lemma_shr_bits, lemma_shr_mono, lemma_shr_nonneg, lemma_shr_succ, level,
    pair_at, path_entry, root_of, shr,
};
use crate::codec::{
    encode_all, lemma_encode_prefix, lemma_encode_step, lemma_le_bytes_of_value, lemma_le_round_trip,
    le_bytes, read_u32_le,
    tree_bytes, write_u32_le, CodecError,
};
use crate::{
    hashes_of, share, HashOf, HashableElement, MerkleHasher, MerkleTree,
    Witness, WitnessNode,
};

verus! {

/// An internal node of the arena. Slot 0 of the arena holds the one `Empty`
/// node, the parent of the root; every other slot holds a `Left` or a
/// `Right` node.
#[derive(Clone, Debug, PartialEq, Eq)]
pub enum InternalNode<H> {
    /// A left child. `hash_of_sibling` is the hash of its right sibling, or
    /// its own hash while it has no right sibling.
    Left { hash_of_sibling: H, parent: usize },
    /// A right child. `hash_of_sibling` is the hash of its left sibling; its
    /// parent is the parent of `left`.
    Right { hash_of_sibling: H, left: usize },
    /// The parent of the root.
    Empty,
}

/// A leaf: an element and the arena index of its parent.
#[derive(Clone, Debug, PartialEq, Eq)]
pub struct LeafNode<E> {
    pub element: E,
    pub parent: usize,
}

/// The ghost picture of a linked tree: its leaves and arena, and where each
/// arena slot stands in the tree.
pub struct Arena<T: MerkleHasher> {
    pub hasher: T,
    pub depth: nat,
    pub leaves: Seq<LeafNode<T::Element>>,
    pub nodes: Seq<InternalNode<HashOf<T>>>,
    /// The arena slot of the node at (level, index); levels count from 1,
    /// the parents of the leaves.
    pub slot: Map<(int, int), int>,
    /// The (level, index) of the node in each arena slot.
    pub pos: Seq<(int, int)>,
}

/// Whether (l, j) is an internal node of a tree of `n` leaves.
pub open spec fn valid_pos(n: int, l: int, j: int) -> bool {
    n >= 2 && 1 <= l <= bits(n - 1) && 0 <= j <= shr(n - 1, l as nat)
}

impl<T: MerkleHasher> Arena<T> {
    pub open spec fn n(self) -> int {
        self.leaves.len() as int
    }

    pub open spec fn top(self) -> int {
        bits(self.n() - 1) as int
    }

    pub open spec fn hashes(self) -> Seq<HashOf<T>> {
        Seq::new(self.leaves.len(), |k: int| self.leaves[k].element.spec_merkle_hash())
    }

    pub open spec fn lvl(self, l: int) -> Seq<HashOf<T>> {
        level(self.hasher, self.hashes(), l as nat)
    }

    /// The node at (l, j) is linked as the tree demands; its cached hash is
    /// current unless it is a left node at level `lo` or above that is the
    /// last or next to last of its level.
    pub open spec fn node_ok(self, l: int, j: int, lo: int) -> bool {
        let last = shr(self.n() - 1, l as nat);
        match self.nodes[self.slot[(l, j)]] {
            InternalNode::Left { hash_of_sibling, parent } => {
                &&& j % 2 == 0
                &&& parent == (if l == self.top() {
                    0
                } else {
                    self.slot[(l + 1, j / 2)]
                })
                &&& (l >= lo && j + 1 >= last) || hash_of_sibling == (if j < last {
                    self.lvl(l)[j + 1]
                } else {
                    self.lvl(l)[j]
                })
            },
            InternalNode::Right { hash_of_sibling, left } => {
                &&& j % 2 == 1
                &&& left == self.slot[(l, j - 1)]
                &&& hash_of_sibling == self.lvl(l)[j - 1]
            },
            InternalNode::Empty => false,
        }
    }

    pub open spec fn positions_ok(self, lo: int) -> bool {
        forall|l: int, j: int|
            #[trigger] valid_pos(self.n(), l, j) ==> {
                &&& self.slot.contains_key((l, j))
                &&& 1 <= self.slot[(l, j)] < self.nodes.len()
                &&& self.pos[self.slot[(l, j)]] == (l, j)
                &&& self.node_ok(l, j, lo)
            }
    }

    pub open spec fn slots_ok(self) -> bool {
        forall|s: int|
            1 <= s < self.nodes.len() ==> {
                &&& valid_pos(self.n(), (#[trigger] self.pos[s]).0, self.pos[s].1)
                &&& self.slot[self.pos[s]] == s
            }
    }

    pub open spec fn leaves_ok(self) -> bool {
        forall|k: int|
            0 <= k < self.n() ==> (#[trigger] self.leaves[k]).parent == self.slot[(1, k / 2)]
    }

    /// Within a level, slots grow from left to right.
    pub open spec fn level_order(self) -> bool {
        forall|l: int, j1: int, j2: int|
            #![trigger valid_pos(self.n(), l, j1), valid_pos(self.n(), l, j2)]
            valid_pos(self.n(), l, j1) && valid_pos(self.n(), l, j2) && j1 < j2 ==> self.slot[(
                l,
                j1,
            )] < self.slot[(l, j2)]
    }

    /// The nodes of every smaller tree come before all the others.
    pub open spec fn growth_order(self) -> bool {
        forall|k: int, l1: int, j1: int, l2: int, j2: int|
            #![trigger valid_pos(k, l1, j1), valid_pos(self.n(), l2, j2)]
            k <= self.n() && valid_pos(k, l1, j1) && valid_pos(self.n(), l2, j2) && !valid_pos(
                k,
                l2,
                j2,
            ) ==> self.slot[(l1, j1)] < self.slot[(l2, j2)]
    }

    /// Well-formed, with the cached hashes current below level `lo`.
    pub open spec fn shaped(self, lo: int) -> bool {
        &&& 1 <= self.depth < usize::MAX
        &&& self.n() <= capacity(self.depth)
        &&& self.nodes.len() >= 1
        &&& self.nodes[0] is Empty
        &&& self.pos.len() == self.nodes.len()
        &&& self.n() <= 1 ==> self.nodes.len() == 1
        &&& self.n() == 1 ==> self.leaves[0].parent == 0
        &&& self.n() >= 2 ==> {
            &&& self.positions_ok(lo)
            &&& self.slots_ok()
            &&& self.leaves_ok()
            &&& self.level_order()
            &&& self.growth_order()
        }
    }

    /// The layout is the one that inserting the leaves one by one builds.
    pub open spec fn canonical(self) -> bool {
        &&& self.slot == canon(self.n()).0
        &&& self.nodes.len() == canon(self.n()).1
    }

    pub open spec fn wf(self) -> bool {
        &&& self.shaped(self.top() + 1)
        &&& self.canonical()
    }
}

/// Every smaller tree's nodes are nodes of the larger tree.
pub proof fn lemma_valid_pos_mono(k: int, n: int, l: int, j: int)
    requires
        k <= n,
        valid_pos(k, l, j),
    ensures
        valid_pos(n, l, j),
{
    lemma_shr_mono(k - 1, n - 1, l as nat);
    lemma_shr_bits(n - 1, bits(n - 1));
    lemma_shr_mono(k - 1, n - 1, bits(n - 1));
    lemma_shr_nonneg(k - 1, bits(n - 1));
    lemma_shr_bits(k - 1, bits(n - 1));
}

/// The last position of level `l` is one past the position of the last leaf
/// of the level below, halved.
pub proof fn lemma_last_step(x: int, l: nat)
    requires
        0 <= x,
    ensures
        shr(x, l + 1) == shr(x, l) / 2,
{
}

/// The top of a tree of `n >= 2` leaves is the one position of its level.
pub proof fn lemma_top(n: int)
    requires
        n >= 2,
    ensures
        bits(n - 1) >= 1,
        shr(n - 1, bits(n - 1)) == 0,
        shr(n - 1, (bits(n - 1) - 1) as nat) >= 1,
{
    lemma_shr_bits(n - 1, bits(n - 1));
    lemma_shr_bits(n - 1, 0);
    lemma_shr_bits(n - 1, (bits(n - 1) - 1) as nat);
    lemma_shr_nonneg(n - 1, (bits(n - 1) - 1) as nat);
}

/// Past the level where two positions first agree, they agree on every
/// level above.
pub proof fn lemma_shr_agree(x: int, y: int, l1: nat, l: nat)
    requires
        0 <= x,
        0 <= y,
        l1 <= l,
        shr(x, l1) == shr(y, l1),
    ensures
        shr(x, l) == shr(y, l),
    decreases l - l1,
{
    if l > l1 {
        lemma_shr_agree(x, y, l1, (l - 1) as nat);
        lemma_last_step(x, (l - 1) as nat);
        lemma_last_step(y, (l - 1) as nat);
    }
}

/// The slots of a tree after an insertion that created a chain of nodes
/// at levels `1..=top_new` (and a new root when `grow`), appended from slot
/// `a.nodes.len()` on.
pub open spec fn chain_slot<T: MerkleHasher>(a: Arena<T>, stop: int, grow: bool) -> Map<(int, int), int> {
    chain_map(a.slot, a.nodes.len() as int, a.n(), stop, grow)
}

/// The slots of a tree of `k + 1` leaves, when the tree of `k` leaves had
/// slots `s` in an arena of `n0` slots and the new leaf brought nodes at
/// levels `1..=stop` (and a new root when `grow`).
pub open spec fn chain_map(s: Map<(int, int), int>, n0: int, k: int, stop: int, grow: bool) -> Map<
    (int, int),
    int,
> {
    Map::new(
        |p: (int, int)| valid_pos(k + 1, p.0, p.1),
        |p: (int, int)|
            if valid_pos(k, p.0, p.1) {
                s[p]
            } else if p.0 <= stop {
                n0 + p.0 - 1
            } else {
                n0 + stop
            },
    )
}

/// The first level from `l` up at which the ancestor of position `m` is a
/// left child: where the chain of new nodes for leaf `m + 1` stops.
pub open spec fn chain_stop(m: int, l: nat) -> nat
    decreases bits(m) - l,
{
    if l >= bits(m) || shr(m, l) % 2 == 0 {
        l
    } else {
        chain_stop(m, l + 1)
    }
}

/// The slots and the arena size of the tree that `n` insertions build: its
/// layout depends on the number of leaves alone.
pub open spec fn canon(n: int) -> (Map<(int, int), int>, int)
    decreases n,
{
    if n <= 1 {
        (Map::empty(), 1)
    } else if n == 2 {
        (Map::empty().insert((1int, 0int), 1int), 2)
    } else {
        let prev = canon(n - 1);
        let k = n - 1;
        if k % 2 == 1 {
            prev
        } else {
            let stop = chain_stop(k - 1, 1) as int;
            let grow = stop == bits(k - 1);
            (
                chain_map(prev.0, prev.1, k, stop, grow),
                prev.1 + stop + (if grow {
                    1int
                } else {
                    0int
                }),
            )
        }
    }
}

/// Where `chain_stop` lands.
pub proof fn lemma_chain_stop(m: int, l: nat)
    requires
        0 <= m,
        l <= bits(m),
    ensures
        l <= chain_stop(m, l) <= bits(m),
        shr(m, chain_stop(m, l)) % 2 == 0,
        forall|l2: int| l <= l2 < chain_stop(m, l) ==> #[trigger] shr(m, l2 as nat) % 2 == 1,
    decreases bits(m) - l,
{
    lemma_shr_bits(m, bits(m));
    if !(l >= bits(m) || shr(m, l) % 2 == 0) {
        lemma_chain_stop(m, l + 1);
    }
}

/// A level where the ancestor is a left child, with right children below,
/// is where the chain stops.
pub proof fn lemma_chain_stop_at(m: int, l: nat, d: nat)
    requires
        0 <= m,
        l <= d <= bits(m),
        shr(m, d) % 2 == 0,
        forall|l2: int| l <= l2 < d ==> #[trigger] shr(m, l2 as nat) % 2 == 1,
    ensures
        chain_stop(m, l) == d,
    decreases d - l,
{
    if l < d {
        let li = l as int;
        assert(shr(m, li as nat) % 2 == 1);
        assert(li as nat == l);
        lemma_chain_stop_at(m, l + 1, d);
    }
}

/// Below the stop of the chain, the new leaf's ancestors are one position
/// right of the last leaf's.
pub proof fn lemma_chain_shift(k: int, l: nat)
    requires
        k >= 2,
        k % 2 == 0,
        1 <= l <= chain_stop(k - 1, 1),
        chain_stop(k - 1, 1) <= bits(k - 1),
        forall|l2: int| 1 <= l2 < chain_stop(k - 1, 1) ==> #[trigger] shr(k - 1, l2 as nat) % 2 == 1,
    ensures
        shr(k, l) == shr(k - 1, l) + 1,
    decreases l,
{
    lemma_last_step(k, 0);
    lemma_last_step(k - 1, 0);
    assert(shr(k, 0) == k && shr(k - 1, 0) == k - 1);
    if l > 1 {
        lemma_chain_shift(k, (l - 1) as nat);
        lemma_last_step(k, (l - 1) as nat);
        lemma_last_step(k - 1, (l - 1) as nat);
        assert(shr(k - 1, (l - 1) as nat) % 2 == 1);
    }
}

/// One more leaf on an even tree: the facts about where its chain stops.
pub proof fn lemma_chain_facts(k: int)
    requires
        k >= 2,
        k % 2 == 0,
    ensures
        1 <= chain_stop(k - 1, 1) <= bits(k - 1),
        shr(k - 1, chain_stop(k - 1, 1)) % 2 == 0,
        forall|l: int| 1 <= l < chain_stop(k - 1, 1) ==> #[trigger] shr(k - 1, l as nat) % 2 == 1,
        forall|l: int|
            1 <= l <= chain_stop(k - 1, 1) ==> #[trigger] shr(k, l as nat) == shr(k - 1, l as nat)
                + 1,
{
    lemma_top(k);
    lemma_chain_stop(k - 1, 1);
    assert forall|l: int| 1 <= l <= chain_stop(k - 1, 1) implies #[trigger] shr(k, l as nat) == shr(
        k - 1,
        l as nat,
    ) + 1 by {
        lemma_chain_shift(k, l as nat);
    }
}

/// An odd tree and the one leaf larger have the same positions.
pub proof fn lemma_valid_same(k: int)
    requires
        k >= 3,
        k % 2 == 1,
    ensures
        forall|l: int, j: int| #[trigger] valid_pos(k + 1, l, j) <==> valid_pos(k, l, j),
{
    let m = k - 1;
    lemma_last_step(k, 0);
    lemma_last_step(m, 0);
    assert(shr(k, 0) == k && shr(m, 0) == m);
    assert(shr(k, 1) == shr(m, 1));
    assert forall|l: int| 1 <= l implies #[trigger] shr(k, l as nat) == shr(m, l as nat) by {
        lemma_shr_agree(k, m, 1, l as nat);
    }
    lemma_top(k);
    let t = bits(m);
    lemma_shr_bits(k, t);
    lemma_shr_bits(m, t);
    lemma_shr_bits(k, (t - 1) as nat);
    lemma_shr_bits(m, (t - 1) as nat);
    assert(bits(k) == t);
    assert forall|l: int, j: int| #[trigger] valid_pos(k + 1, l, j) <==> valid_pos(k, l, j) by {
        assert((k + 1) - 1 == k);
    }
}

/// The canonical layout: its slots are the positions of the tree, numbered
/// from 1 to one less than the arena size, the last one used.
pub proof fn lemma_canon(n: int)
    requires
        n >= 2,
    ensures
        forall|p: (int, int)| #[trigger] canon(n).0.contains_key(p) <==> valid_pos(n, p.0, p.1),
        forall|l: int, j: int|
            #[trigger] valid_pos(n, l, j) ==> 1 <= canon(n).0[(l, j)] < canon(n).1,
        exists|l: int, j: int| #[trigger] valid_pos(n, l, j) && canon(n).0[(l, j)] == canon(n).1 - 1,
    decreases n,
{
    if n == 2 {
        lemma_last_step(1, 0);
        assert(shr(1, 0) == 1);
        assert(bits(1) == 1 + bits(0));
        assert forall|l: int, j: int| #[trigger] valid_pos(2, l, j) <==> (l == 1 && j == 0) by {
            if l >= 1 {
                lemma_shr_bits(1, l as nat);
            }
        }
        assert(valid_pos(2, 1, 0));
    } else {
        let k = n - 1;
        lemma_canon(k);
        if k % 2 == 1 {
            lemma_valid_same(k);
            assert(canon(n) == canon(k));
            assert(n == k + 1);
            let (l0, j0) = choose|l: int, j: int|
                #[trigger] valid_pos(k, l, j) && canon(k).0[(l, j)] == canon(k).1 - 1;
            assert(valid_pos(k + 1, l0, j0));
            assert forall|p: (int, int)| #[trigger] canon(n).0.contains_key(p) <==> valid_pos(n, p.0, p.1) by {
                assert(valid_pos(k + 1, p.0, p.1) <==> valid_pos(k, p.0, p.1));
            }
            assert forall|l: int, j: int|
                #[trigger] valid_pos(n, l, j) implies 1 <= canon(n).0[(l, j)] < canon(n).1 by {
                assert(valid_pos(k + 1, l, j) <==> valid_pos(k, l, j));
            }
        } else {
            lemma_chain_facts(k);
            let stop = chain_stop(k - 1, 1) as int;
            let grow = stop == bits(k - 1);
            lemma_chain_positions(k, stop, grow);
            let n0 = canon(k).1;
            assert forall|l: int, j: int| #[trigger] valid_pos(n, l, j) implies 1 <= canon(n).0[(l, j)]
                < canon(n).1 by {
                if valid_pos(k, l, j) {
                }
            }
            if grow {
                assert(!valid_pos(k, stop + 1, 0));
                assert(valid_pos(n, stop + 1, 0));
                assert(canon(n).0[(stop + 1, 0)] == canon(n).1 - 1);
            } else {
                lemma_shr_succ(k - 1, stop as nat);
                assert(!valid_pos(k, stop, shr(k, stop as nat)));
                assert(valid_pos(n, stop, shr(k, stop as nat)));
                assert(canon(n).0[(stop, shr(k, stop as nat))] == canon(n).1 - 1);
            }
        }
    }
}

/// A smaller tree's nodes keep their slots as the tree grows.
pub proof fn lemma_canon_stable(k: int, n: int, l: int, j: int)
    requires
        2 <= k <= n,
        valid_pos(k, l, j),
    ensures
        canon(n).0[(l, j)] == canon(k).0[(l, j)],
    decreases n,
{
    if n > k {
        lemma_canon_stable(k, n - 1, l, j);
        lemma_valid_pos_mono(k, n - 1, l, j);
        lemma_valid_pos_mono(k, n, l, j);
        let m = n - 1;
        if m % 2 == 0 {
            assert(canon(n).0 == chain_map(
                canon(m).0,
                canon(m).1,
                m,
                chain_stop(m - 1, 1) as int,
                chain_stop(m - 1, 1) as int == bits(m - 1),
            ));
            assert(valid_pos(m + 1, l, j));
        } else {
            assert(canon(n) == canon(m));
        }
    }
}

pub open spec fn chain_pos<T: MerkleHasher>(a: Arena<T>, stop: int, grow: bool) -> Seq<(int, int)> {
    Seq::new(
        (a.nodes.len() + stop + if grow {
            1int
        } else {
            0int
        }) as nat,
        |s: int|
            if s < a.nodes.len() {
                a.pos[s]
            } else if s < a.nodes.len() + stop {
                (s - a.nodes.len() + 1, shr(a.n(), (s - a.nodes.len() + 1) as nat))
            } else {
                (stop + 1, 0)
            },
    )
}

/// Where the chain of nodes that a new leaf brings to a tree of `k` leaves
/// stops, and which positions the larger tree has.
pub proof fn lemma_chain_positions(k: int, stop: int, grow: bool)
    requires
        k >= 2,
        k % 2 == 0,
        1 <= stop <= (bits(k - 1) as int),
        forall|l: int| 1 <= l <= stop ==> #[trigger] shr(k, l as nat) == shr(k - 1, l as nat) + 1,
        shr(k - 1, stop as nat) % 2 == 0,
        grow == (stop == (bits(k - 1) as int)),
    ensures
        bits(k) == if grow {
            (bits(k - 1) as int) + 1
        } else {
            (bits(k - 1) as int)
        },
        forall|l: int, j: int|
            #[trigger] valid_pos(k + 1, l, j) <==> valid_pos(k, l, j) || (1 <= l <= stop && j
                == shr(k, l as nat)) || (grow && l == stop + 1 && j == 0),
        forall|l: int| stop < l ==> #[trigger] shr(k, l as nat) == shr(k - 1, l as nat),
{
    let m = k - 1;
    let top = bits(k - 1) as int;
    lemma_top(k);
    lemma_last_step(k, stop as nat);
    lemma_last_step(m, stop as nat);
    assert(shr(k, stop as nat) == shr(m, stop as nat) + 1);
    assert forall|l: int| stop < l implies #[trigger] shr(k, l as nat) == shr(m, l as nat) by {
        lemma_shr_agree(k, m, (stop + 1) as nat, l as nat);
    }
    lemma_shr_bits(k, top as nat);
    lemma_shr_bits(m, top as nat);
    lemma_shr_bits(k, (top + 1) as nat);
    lemma_shr_nonneg(m, top as nat);
    if grow {
        assert(shr(k, (top + 1) as nat) == shr(m, (top + 1) as nat));
        lemma_shr_bits(m, (top + 1) as nat);
    } else {
        lemma_shr_bits(k, (top - 1) as nat);
        lemma_shr_bits(m, (top - 1) as nat);
        lemma_shr_succ(m, (top - 1) as nat);
        lemma_shr_nonneg(m, (top - 1) as nat);
    }
    let top2 = bits(k) as int;
    assert forall|l: int, j: int|
        #[trigger] valid_pos(k + 1, l, j) <==> valid_pos(k, l, j) || (1 <= l <= stop && j == shr(
            k,
            l as nat,
        )) || (grow && l == stop + 1 && j == 0) by {
        assert((k + 1) - 1 == k);
        if 1 <= l {
            lemma_shr_nonneg(m, l as nat);
            lemma_shr_bits(k, l as nat);
            lemma_shr_bits(m, l as nat);
            if l <= stop {
                assert(shr(k, l as nat) == shr(m, l as nat) + 1);
            } else {
                assert(shr(k, l as nat) == shr(m, l as nat));
            }
        }
    }
}

/// The arena `b` is `a` with one more leaf and the chain of nodes that an
/// insertion appends.
pub open spec fn chained<T: MerkleHasher>(a: Arena<T>, b: Arena<T>, stop: int, grow: bool) -> bool {
    let n0 = a.nodes.len() as int;
    let last = a.slot[(stop, shr(a.n() - 1, stop as nat))];
    &&& b.hasher == a.hasher
    &&& b.depth == a.depth
    &&& b.leaves.len() == a.leaves.len() + 1
    &&& forall|i: int| 0 <= i < a.n() ==> #[trigger] b.leaves[i] == a.leaves[i]
    &&& b.leaves[a.n()].parent == n0
    &&& b.slot == chain_slot(a, stop, grow)
    &&& b.pos == chain_pos(a, stop, grow)
    &&& b.nodes.len() == n0 + stop + (if grow {
        1int
    } else {
        0int
    })
    &&& forall|i: int|
        0 <= i < n0 && !(grow && i == a.slot[(stop, 0)]) ==> #[trigger] b.nodes[i] == a.nodes[i]
    &&& grow ==> match (a.nodes[a.slot[(stop, 0)]], b.nodes[a.slot[(stop, 0)]]) {
        (
            InternalNode::Left { hash_of_sibling: h1, .. },
            InternalNode::Left { hash_of_sibling: h2, parent },
        ) => h1 == h2 && parent == n0 + stop,
        _ => false,
    }
    &&& forall|l: int|
        1 <= l < stop ==> match #[trigger] b.nodes[n0 + l - 1] {
            InternalNode::Left { parent, .. } => parent == n0 + l,
            _ => false,
        }
    &&& match (a.nodes[last], b.nodes[n0 + stop - 1]) {
        (
            InternalNode::Left { hash_of_sibling: h1, .. },
            InternalNode::Right { hash_of_sibling: h2, left },
        ) => h1 == h2 && left == last,
        _ => false,
    }
    &&& grow ==> match b.nodes[n0 + stop] {
        InternalNode::Left { parent, .. } => parent == 0,
        _ => false,
    }
}

/// An insertion that appends a chain of nodes leaves a well-shaped arena.
#[verifier::rlimit(60)]
pub proof fn lemma_add_chain<T: MerkleHasher>(a: Arena<T>, b: Arena<T>, stop: int, grow: bool)
    requires
        a.wf(),
        a.n() >= 2,
        a.n() % 2 == 0,
        a.n() < capacity(a.depth),
        1 <= stop <= a.top(),
        forall|l: int| 1 <= l <= stop ==> #[trigger] shr(a.n(), l as nat) == shr(a.n() - 1, l as nat) + 1,
        forall|l: int| 1 <= l < stop ==> #[trigger] shr(a.n() - 1, l as nat) % 2 == 1,
        shr(a.n() - 1, stop as nat) % 2 == 0,
        grow == (stop == a.top()),
        chained(a, b, stop, grow),
    ensures
        b.shaped(1),
{
    let k = a.n();
    let m = k - 1;
    let n0 = a.nodes.len() as int;
    lemma_chain_positions(a.n(), stop, grow);
    lemma_top(k);
    lemma_capacity(k, a.depth);
    assert(b.hashes().subrange(0, k) =~= a.hashes()) by {
        assert forall|i: int| 0 <= i < k implies b.hashes()[i] == a.hashes()[i] by {
            assert(b.leaves[i] == a.leaves[i]);
        }
    }
    assert(a.hashes().subrange(0, k) =~= a.hashes());
    let hb = b.hashes();
    let ha = a.hashes();
    assert(b.n() == k + 1);
    assert(b.top() == bits(k));
    // positions
    assert forall|l: int, j: int| #[trigger] valid_pos(b.n(), l, j) implies {
        &&& b.slot.contains_key((l, j))
        &&& 1 <= b.slot[(l, j)] < b.nodes.len()
        &&& b.pos[b.slot[(l, j)]] == (l, j)
        &&& b.node_ok(l, j, 1)
    } by {
        lemma_shr_nonneg(m, l as nat);
        lemma_shr_nonneg(k, l as nat);
        lemma_shr_succ(m, l as nat);
        lemma_level_len(a.hasher, ha, l as nat);
        lemma_level_len(b.hasher, hb, l as nat);
        if valid_pos(k, l, j) {
            let s = a.slot[(l, j)];
            assert(a.node_ok(l, j, a.top() + 1));
            if j % 2 == 1 {
                assert(valid_pos(k, l, j - 1));
                lemma_level_prefix(a.hasher, ha, hb, k, l as nat, j - 1);
            } else if j + 1 < shr(k, l as nat) {
                lemma_level_prefix(a.hasher, ha, hb, k, l as nat, j + 1);
            }
            if l < a.top() && j % 2 == 0 {
                lemma_shr_bits(m, (l + 1) as nat);
                lemma_last_step(m, l as nat);
                lemma_shr_nonneg(m, (l + 1) as nat);
                assert(valid_pos(k, l + 1, j / 2));
            }
            if grow && s == a.slot[(stop, 0)] {
                assert(valid_pos(k, stop, 0));
                assert(a.pos[s] == (stop, 0int));
                assert((l, j) == (stop, 0int));
                assert(b.slot[(stop + 1, 0)] == n0 + stop);
            }
            assert(b.slot[(l, j)] == s);
            assert(b.pos[s] == (l, j));
            if !(grow && s == a.slot[(stop, 0)]) {
                assert(b.nodes[s] == a.nodes[s]);
                if j % 2 == 1 {
                    assert(b.lvl(l)[j - 1] == a.lvl(l)[j - 1]);
                } else {
                    if l == a.top() {
                        assert(!grow);
                        assert(b.top() == a.top());
                    } else {
                        assert(b.slot[(l + 1, j / 2)] == a.slot[(l + 1, j / 2)]);
                    }
                    if j + 1 < shr(k, l as nat) {
                        assert(b.lvl(l)[j + 1] == a.lvl(l)[j + 1]);
                    }
                }
            }
            assert(b.node_ok(l, j, 1));
        } else if 1 <= l <= stop && j == shr(k, l as nat) {
            assert(b.slot[(l, j)] == n0 + l - 1);
            if l < stop {
                lemma_last_step(k, l as nat);
                assert(shr(m, l as nat) % 2 == 1);
                assert(!valid_pos(k, l + 1, shr(k, (l + 1) as nat)));
                assert(valid_pos(b.n(), l + 1, shr(k, (l + 1) as nat)));
                assert(b.nodes[n0 + l - 1] matches InternalNode::Left { parent, .. } && parent == n0
                    + l);
            } else {
                assert(valid_pos(k, stop, shr(m, stop as nat)));
                assert(a.node_ok(stop, shr(m, stop as nat), a.top() + 1));
                lemma_level_prefix(a.hasher, ha, hb, k, l as nat, j - 1);
                assert(valid_pos(k, l, j - 1));
            }
            assert(b.pos[n0 + l - 1] == (l, j));
            assert(b.node_ok(l, j, 1));
        } else {
            assert(grow && l == stop + 1 && j == 0);
            assert(b.slot[(l, j)] == n0 + stop);
            assert(b.pos[n0 + stop] == (l, j));
            assert(b.node_ok(l, j, 1));
        }
    }
    assert(b.positions_ok(1));
    assert forall|s: int| 1 <= s < b.nodes.len() implies {
        &&& valid_pos(b.n(), (#[trigger] b.pos[s]).0, b.pos[s].1)
        &&& b.slot[b.pos[s]] == s
    } by {
        if s < n0 {
            let p = a.pos[s];
            assert(valid_pos(k, p.0, p.1));
        } else if s < n0 + stop {
            let l = s - n0 + 1;
            lemma_shr_succ(m, l as nat);
            assert(!valid_pos(k, l, shr(k, l as nat)));
        } else {
            assert(!valid_pos(k, stop + 1, 0));
        }
    }
    assert(b.slots_ok());
    assert forall|i: int| 0 <= i < b.n() implies (#[trigger] b.leaves[i]).parent == b.slot[(
        1,
        i / 2,
    )] by {
        lemma_last_step(k, 0);
        lemma_last_step(m, 0);
        assert(shr(k, 0) == k);
        assert(shr(m, 0) == m);
        if i < k {
            assert(b.leaves[i] == a.leaves[i]);
            assert(valid_pos(k, 1, i / 2));
        } else {
            assert(shr(k, 1) == k / 2);
            assert(!valid_pos(k, 1, k / 2));
        }
    }
    assert(b.leaves_ok());
    assert forall|l: int, j1: int, j2: int|
        #![trigger valid_pos(b.n(), l, j1), valid_pos(b.n(), l, j2)]
        valid_pos(b.n(), l, j1) && valid_pos(b.n(), l, j2) && j1 < j2 implies b.slot[(l, j1)]
        < b.slot[(l, j2)] by {
        if valid_pos(k, l, j2) {
            assert(valid_pos(k, l, j1));
        } else if valid_pos(k, l, j1) {
        } else {
            lemma_shr_succ(m, l as nat);
        }
    }
    assert(b.level_order());
    assert forall|k2: int, l1: int, j1: int, l2: int, j2: int|
        #![trigger valid_pos(k2, l1, j1), valid_pos(b.n(), l2, j2)]
        k2 <= b.n() && valid_pos(k2, l1, j1) && valid_pos(b.n(), l2, j2) && !valid_pos(k2, l2, j2)
            implies b.slot[(l1, j1)] < b.slot[(l2, j2)] by {
        if valid_pos(k, l2, j2) {
            if k2 > k {
                assert(k2 == b.n());
            }
            lemma_valid_pos_mono(k2, k, l1, j1);
        } else {
            if !valid_pos(k, l1, j1) {
                if k2 <= k {
                    lemma_valid_pos_mono(k2, k, l1, j1);
                }
            }
        }
    }
    assert(b.growth_order());
}

/// A new right leaf whose left sibling already has a parent needs no new
/// node.
pub proof fn lemma_add_right_leaf<T: MerkleHasher>(a: Arena<T>, b: Arena<T>)
    requires
        a.wf(),
        a.n() >= 3,
        a.n() % 2 == 1,
        a.n() < capacity(a.depth),
        b.hasher == a.hasher,
        b.depth == a.depth,
        b.nodes == a.nodes,
        b.slot == a.slot,
        b.pos == a.pos,
        b.leaves.len() == a.leaves.len() + 1,
        forall|i: int| 0 <= i < a.n() ==> #[trigger] b.leaves[i] == a.leaves[i],
        b.leaves[a.n()].parent == a.leaves[a.n() - 1].parent,
    ensures
        b.shaped(1),
{
    let k = a.n();
    let m = k - 1;
    let t = a.top();
    lemma_capacity(k, a.depth);
    lemma_last_step(k, 0);
    lemma_last_step(m, 0);
    assert(shr(k, 0) == k && shr(m, 0) == m);
    assert(shr(k, 1) == shr(m, 1));
    assert forall|l: int| 1 <= l implies #[trigger] shr(k, l as nat) == shr(m, l as nat) by {
        lemma_shr_agree(k, m, 1, l as nat);
    }
    lemma_top(k);
    lemma_shr_bits(k, t as nat);
    lemma_shr_bits(m, t as nat);
    lemma_shr_bits(k, (t - 1) as nat);
    lemma_shr_bits(m, (t - 1) as nat);
    assert(bits(k) == t);
    assert forall|l: int, j: int| #[trigger] valid_pos(k + 1, l, j) <==> valid_pos(k, l, j) by {
        assert((k + 1) - 1 == k);
    }
    assert(b.hashes().subrange(0, k) =~= a.hashes()) by {
        assert forall|i: int| 0 <= i < k implies b.hashes()[i] == a.hashes()[i] by {
            assert(b.leaves[i] == a.leaves[i]);
        }
    }
    assert(a.hashes().subrange(0, k) =~= a.hashes());
    let ha = a.hashes();
    let hb = b.hashes();
    assert(b.n() == k + 1);
    assert forall|l: int, j: int| #[trigger] valid_pos(b.n(), l, j) implies {
        &&& b.slot.contains_key((l, j))
        &&& 1 <= b.slot[(l, j)] < b.nodes.len()
        &&& b.pos[b.slot[(l, j)]] == (l, j)
        &&& b.node_ok(l, j, 1)
    } by {
        assert(valid_pos(k, l, j));
        assert(a.node_ok(l, j, a.top() + 1));
        lemma_shr_nonneg(m, l as nat);
        lemma_level_len(a.hasher, ha, l as nat);
        lemma_level_len(b.hasher, hb, l as nat);
        if j % 2 == 1 {
            lemma_level_prefix(a.hasher, ha, hb, k, l as nat, j - 1);
        } else if j + 1 < shr(k, l as nat) {
            lemma_level_prefix(a.hasher, ha, hb, k, l as nat, j + 1);
        }
    }
    assert forall|s: int| 1 <= s < b.nodes.len() implies {
        &&& valid_pos(b.n(), (#[trigger] b.pos[s]).0, b.pos[s].1)
        &&& b.slot[b.pos[s]] == s
    } by {
        let p = a.pos[s];
        assert(valid_pos(k, p.0, p.1));
    }
    assert forall|i: int| 0 <= i < b.n() implies (#[trigger] b.leaves[i]).parent == b.slot[(
        1,
        i / 2,
    )] by {
        if i < k {
            assert(b.leaves[i] == a.leaves[i]);
        } else {
            assert(a.leaves[m] == a.leaves[m]);
            assert(m / 2 == k / 2);
        }
    }
    assert forall|l: int, j1: int, j2: int|
        #![trigger valid_pos(b.n(), l, j1), valid_pos(b.n(), l, j2)]
        valid_pos(b.n(), l, j1) && valid_pos(b.n(), l, j2) && j1 < j2 implies b.slot[(l, j1)]
        < b.slot[(l, j2)] by {
        assert(valid_pos(k, l, j1) && valid_pos(k, l, j2));
    }
    assert forall|k2: int, l1: int, j1: int, l2: int, j2: int|
        #![trigger valid_pos(k2, l1, j1), valid_pos(b.n(), l2, j2)]
        k2 <= b.n() && valid_pos(k2, l1, j1) && valid_pos(b.n(), l2, j2) && !valid_pos(k2, l2, j2)
            implies b.slot[(l1, j1)] < b.slot[(l2, j2)] by {
        assert(valid_pos(k, l2, j2));
        if k2 == k + 1 {
            assert(valid_pos(k2, l2, j2));
        }
    }
}

/// The second leaf brings the first internal node.
pub proof fn lemma_add_second_leaf<T: MerkleHasher>(a: Arena<T>, b: Arena<T>)
    requires
        a.wf(),
        a.n() == 1,
        a.n() < capacity(a.depth),
        b.hasher == a.hasher,
        b.depth == a.depth,
        b.leaves.len() == 2,
        b.leaves[0].element == a.leaves[0].element,
        b.leaves[0].parent == 1,
        b.leaves[1].parent == 1,
        b.nodes.len() == 2,
        b.nodes[0] is Empty,
        b.nodes[1] matches InternalNode::Left { parent, .. } && parent == 0,
        b.slot == Map::<(int, int), int>::empty().insert((1, 0), 1),
        b.pos == Seq::empty().push((0int, 0int)).push((1int, 0int)),
    ensures
        b.shaped(1),
{
    lemma_capacity(1, a.depth);
    lemma_last_step(1, 0);
    assert(shr(1, 0) == 1);
    assert(shr(1, 1) == 0);
    assert(bits(1) == 1 + bits(0));
    assert forall|l: int, j: int| #[trigger] valid_pos(2, l, j) <==> (l == 1 && j == 0) by {
        if l >= 1 {
            lemma_shr_bits(1, l as nat);
        }
    }
    assert(b.n() == 2);
    assert(valid_pos(2, 1, 0));
    assert forall|k2: int, l1: int, j1: int, l2: int, j2: int|
        #![trigger valid_pos(k2, l1, j1), valid_pos(b.n(), l2, j2)]
        k2 <= b.n() && valid_pos(k2, l1, j1) && valid_pos(b.n(), l2, j2) && !valid_pos(k2, l2, j2)
            implies b.slot[(l1, j1)] < b.slot[(l2, j2)] by {
        assert(k2 == 2);
    }
    assert forall|i: int| 0 <= i < b.n() implies (#[trigger] b.leaves[i]).parent == b.slot[(
        1,
        i / 2,
    )] by {
        assert(i / 2 == 0);
    }
}

/// Cutting a tree back to its first `k >= 2` leaves, detaching the new
/// root and dropping the arena past the highest slot of the new rightmost
/// path leaves a well-shaped arena.
#[verifier::rlimit(60)]
pub proof fn lemma_truncate<T: MerkleHasher>(a: Arena<T>, c: Arena<T>, k: int, max: int, lmax: int)
    requires
        a.wf(),
        2 <= k < a.n(),
        1 <= lmax <= bits(k - 1),
        max == a.slot[(lmax, shr(k - 1, lmax as nat))],
        forall|l: int|
            1 <= l <= bits(k - 1) ==> #[trigger] a.slot[(l, shr(k - 1, l as nat))] <= max,
        truncated(a, c, k, max),
    ensures
        c.shaped(1),
        forall|l: int, j: int| #[trigger] valid_pos(k, l, j) ==> a.slot[(l, j)] <= max,
{
    let x = k - 1;
    let n = a.n();
    let tk = bits(x) as int;
    let root = a.slot[(tk, 0)];
    lemma_top(k);
    lemma_top(n);
    lemma_shr_bits(x, tk as nat);
    assert(valid_pos(k, tk, 0));
    lemma_valid_pos_mono(k, n, tk, 0);
    lemma_shr_nonneg(x, lmax as nat);
    assert(valid_pos(k, lmax, shr(x, lmax as nat)));
    lemma_valid_pos_mono(k, n, lmax, shr(x, lmax as nat));
    assert(c.hashes() =~= a.hashes().subrange(0, k));
    let ha = a.hashes();
    let hc = c.hashes();
    assert(hc.subrange(0, k) =~= hc);
    assert(c.n() == k);
    // every node of the smaller tree sits at or below `max`
    assert forall|l: int, j: int| #[trigger] valid_pos(k, l, j) implies a.slot[(l, j)] <= max && valid_pos(
        n,
        l,
        j,
    ) by {
        lemma_valid_pos_mono(k, n, l, j);
        lemma_shr_nonneg(x, l as nat);
        assert(valid_pos(k, l, shr(x, l as nat)));
        lemma_valid_pos_mono(k, n, l, shr(x, l as nat));
        if j < shr(x, l as nat) {
            assert(valid_pos(n, l, j) && valid_pos(n, l, shr(x, l as nat)));
        }
    }
    assert forall|l: int, j: int| #[trigger] valid_pos(c.n(), l, j) implies {
        &&& c.slot.contains_key((l, j))
        &&& 1 <= c.slot[(l, j)] < c.nodes.len()
        &&& c.pos[c.slot[(l, j)]] == (l, j)
        &&& c.node_ok(l, j, 1)
    } by {
        assert(valid_pos(k, l, j));
        assert(valid_pos(n, l, j));
        let s = a.slot[(l, j)];
        assert(a.node_ok(l, j, a.top() + 1));
        lemma_shr_nonneg(x, l as nat);
        lemma_shr_succ(x, l as nat);
        lemma_shr_mono(x, n - 1, l as nat);
        lemma_level_len(a.hasher, ha, l as nat);
        lemma_level_len(c.hasher, hc, l as nat);
        lemma_shr_bits(x, l as nat);
        lemma_shr_bits(n - 1, l as nat);
        if j % 2 == 1 {
            assert(valid_pos(k, l, j - 1));
            assert(valid_pos(n, l, j - 1));
            lemma_level_prefix(c.hasher, hc, ha, k, l as nat, j - 1);
        } else {
            if j + 1 < shr(x, l as nat) {
                lemma_level_prefix(c.hasher, hc, ha, k, l as nat, j + 1);
            }
            if l < tk {
                lemma_last_step(x, l as nat);
                lemma_shr_bits(x, (l + 1) as nat);
                lemma_shr_nonneg(x, (l + 1) as nat);
                assert(valid_pos(k, l + 1, j / 2));
                assert(valid_pos(n, l + 1, j / 2));
                assert(l < a.top());
            }
        }
        if s != root {
            assert(c.nodes[s] == a.nodes[s]);
        } else {
            assert(a.pos[s] == (tk, 0int));
        }
    }
    assert forall|s: int| 1 <= s < c.nodes.len() implies {
        &&& valid_pos(c.n(), (#[trigger] c.pos[s]).0, c.pos[s].1)
        &&& c.slot[c.pos[s]] == s
    } by {
        let q = a.pos[s];
        assert(valid_pos(n, q.0, q.1));
        if !valid_pos(k, q.0, q.1) {
            assert(valid_pos(k, lmax, shr(x, lmax as nat)));
            assert(a.slot[(lmax, shr(x, lmax as nat))] < a.slot[q]);
        }
    }
    assert forall|i: int| 0 <= i < c.n() implies (#[trigger] c.leaves[i]).parent == c.slot[(
        1,
        i / 2,
    )] by {
        assert(c.leaves[i] == a.leaves[i]);
        lemma_last_step(x, 0);
        assert(shr(x, 0) == x);
        lemma_shr_bits(x, 1);
        assert(valid_pos(k, 1, i / 2));
        lemma_valid_pos_mono(k, n, 1, i / 2);
    }
    assert forall|l: int, j1: int, j2: int|
        #![trigger valid_pos(c.n(), l, j1), valid_pos(c.n(), l, j2)]
        valid_pos(c.n(), l, j1) && valid_pos(c.n(), l, j2) && j1 < j2 implies c.slot[(l, j1)]
        < c.slot[(l, j2)] by {
        assert(valid_pos(n, l, j1) && valid_pos(n, l, j2));
    }
    assert forall|k2: int, l1: int, j1: int, l2: int, j2: int|
        #![trigger valid_pos(k2, l1, j1), valid_pos(c.n(), l2, j2)]
        k2 <= c.n() && valid_pos(k2, l1, j1) && valid_pos(c.n(), l2, j2) && !valid_pos(k2, l2, j2)
            implies c.slot[(l1, j1)] < c.slot[(l2, j2)] by {
        assert(valid_pos(n, l2, j2));
        assert(valid_pos(k2, l1, j1));
        lemma_valid_pos_mono(k2, k, l1, j1);
        assert(valid_pos(k, l1, j1));
    }
}

/// The arena `c` is `a` cut back to its first `k` leaves: the root of the
/// smaller tree detached, and the slots past `max` dropped.
pub open spec fn truncated<T: MerkleHasher>(a: Arena<T>, c: Arena<T>, k: int, max: int) -> bool {
    let root = a.slot[(bits(k - 1) as int, 0)];
    &&& c.hasher == a.hasher
    &&& c.depth == a.depth
    &&& c.leaves == a.leaves.subrange(0, k)
    &&& c.nodes.len() == max + 1
    &&& forall|i: int| 0 <= i <= max && i != root ==> #[trigger] c.nodes[i] == a.nodes[i]
    &&& match (a.nodes[root], c.nodes[root]) {
        (
            InternalNode::Left { hash_of_sibling: h1, .. },
            InternalNode::Left { hash_of_sibling: h2, parent },
        ) => h1 == h2 && parent == 0,
        _ => false,
    }
    &&& c.pos == a.pos.subrange(0, max + 1)
    &&& c.slot == Map::new(|p: (int, int)| valid_pos(k, p.0, p.1), |p: (int, int)| a.slot[p])
}

/// Two well-formed arenas with the same hasher, depth and leaf elements are
/// the same arena, node for node and leaf for leaf.
pub proof fn lemma_arena_unique<T: MerkleHasher>(a: Arena<T>, b: Arena<T>)
    requires
        a.wf(),
        b.wf(),
        a.hasher == b.hasher,
        a.depth == b.depth,
        a.leaves.len() == b.leaves.len(),
        forall|i: int| 0 <= i < a.leaves.len() ==> #[trigger] a.leaves[i].element == b.leaves[i].element,
    ensures
        a.nodes == b.nodes,
        a.leaves == b.leaves,
{
    let n = a.n();
    assert(a.hashes() =~= b.hashes());
    assert forall|s: int| 0 <= s < a.nodes.len() implies a.nodes[s] == b.nodes[s] by {
        if s >= 1 {
            let p = a.pos[s];
            assert(valid_pos(n, p.0, p.1));
            assert(valid_pos(b.n(), p.0, p.1));
            assert(a.node_ok(p.0, p.1, a.top() + 1));
            assert(b.node_ok(p.0, p.1, b.top() + 1));
            if p.1 % 2 == 1 {
                assert(valid_pos(n, p.0, p.1 - 1));
            }
        }
    }
    assert(a.nodes =~= b.nodes);
    assert forall|i: int| 0 <= i < a.leaves.len() implies a.leaves[i] == b.leaves[i] by {
        assert(a.leaves[i].element == b.leaves[i].element);
    }
    assert(a.leaves =~= b.leaves);
}

/// An append-only Merkle tree of fixed height whose internal nodes are kept
/// in an arena.
pub struct LinkedMerkleTree<T: MerkleHasher> {
    hasher: Arc<T>,
    leaves: Vec<LeafNode<T::Element>>,
    nodes: Vec<InternalNode<HashOf<T>>>,
    tree_depth: usize,
    slot: Ghost<Map<(int, int), int>>,
    pos: Ghost<Seq<(int, int)>>,
}

/// Whether leaf `value` is a right child.
pub fn is_right_leaf(value: usize) -> (r: bool)
    ensures
        r == (value % 2 == 1),
{
    value % 2 == 1
}

/// The number of levels of the smallest tree holding `count` leaves, root
/// level included.
pub fn depth_at_leaf_count(count: usize) -> (r: usize)
    ensures
        r == crate::model::depth_at_leaf_count(count as int),
{
    if count == 0 {
        return 0;
    }
    let mut x = count - 1;
    let mut b: usize = 0;
    proof {
        lemma_bits_le((count - 1) as int);
    }
    while x > 0
        invariant
            0 <= x,
            b + bits(x as int) == bits(count - 1),
            bits(count - 1) <= count - 1,
        decreases x,
    {
        x = x / 2;
        b = b + 1;
    }
    b + 1
}

impl<T: MerkleHasher> LinkedMerkleTree<T> {
    /// The ghost picture of this tree.
    pub closed spec fn arena(&self) -> Arena<T> {
        Arena {
            hasher: *self.hasher,
            depth: self.tree_depth as nat,
            leaves: self.leaves@,
            nodes: self.nodes@,
            slot: self.slot@,
            pos: self.pos@,
        }
    }

    pub closed spec fn wf(&self) -> bool {
        self.arena().wf()
    }

    /// The elements of the leaves, in order.
    pub closed spec fn elements(&self) -> Seq<T::Element> {
        Seq::new(self.leaves@.len(), |k: int| self.leaves@[k].element)
    }

    /// The leaf hashes, in order.
    pub open spec fn leaf_hashes(&self) -> Seq<HashOf<T>> {
        Seq::new(self.elements().len(), |k: int| self.elements()[k].spec_merkle_hash())
    }

    /// The number of combining levels: the authentication path's length.
    pub closed spec fn depth(&self) -> nat {
        self.tree_depth as nat
    }

    pub closed spec fn spec_hasher(&self) -> T {
        *self.hasher
    }

    /// The arena's slots, the `Empty` one first.
    pub closed spec fn arena_nodes(&self) -> Seq<InternalNode<HashOf<T>>> {
        self.nodes@
    }

    /// The leaves with their parents' slots.
    pub closed spec fn arena_leaves(&self) -> Seq<LeafNode<T::Element>> {
        self.leaves@
    }

    /// The root hash of the tree of leaf hashes `hs`.
    pub open spec fn root_of(&self, hs: Seq<HashOf<T>>) -> HashOf<T> {
        root_of(self.spec_hasher(), hs, self.depth())
    }

    /// A well-formed tree has at least one combining level and no more
    /// leaves than it has room for.
    pub proof fn lemma_wf_bounds(&self)
        requires
            self.wf(),
        ensures
            self.depth() >= 1,
            self.elements().len() <= capacity(self.depth()),
    {
    }

    /// A well-formed tree's arena is decided by its hasher, its depth and
    /// its leaves.
    pub proof fn lemma_same_leaves_same_arena(&self, other: &Self)
        requires
            self.wf(),
            other.wf(),
            self.elements() == other.elements(),
            self.depth() == other.depth(),
            self.spec_hasher() == other.spec_hasher(),
        ensures
            self.arena_nodes() == other.arena_nodes(),
            self.arena_leaves() == other.arena_leaves(),
    {
        assert(self.elements().len() == self.leaves@.len());
        assert(other.elements().len() == other.leaves@.len());
        assert forall|i: int| 0 <= i < self.leaves@.len() implies #[trigger] self.leaves@[i].element
            == other.leaves@[i].element by {
            assert(self.elements()[i] == self.leaves@[i].element);
            assert(other.elements()[i] == other.leaves@[i].element);
        }
        lemma_arena_unique(self.arena(), other.arena());
    }

    proof fn lemma_hashes(&self)
        ensures
            self.arena().hashes() == self.leaf_hashes(),
            self.arena().n() == self.elements().len(),
    {
        assert(self.arena().hashes() =~= self.leaf_hashes());
    }

    /// An empty tree of `tree_depth` levels, root included: its paths have
    /// `tree_depth - 1` entries and it holds `2^(tree_depth - 1)` leaves.
    pub fn new_with_size(hasher: Arc<T>, tree_depth: usize) -> (r: Box<Self>)
        requires
            2 <= tree_depth,
        ensures
            r.wf(),
            r.elements() == Seq::<T::Element>::empty(),
            r.depth() == tree_depth - 1,
            r.spec_hasher() == *hasher,
    {
        let r = LinkedMerkleTree {
            hasher,
            leaves: Vec::new(),
            nodes: vec![InternalNode::Empty],
            tree_depth: tree_depth - 1,
            slot: Ghost(Map::empty()),
            pos: Ghost(Seq::empty().push((0int, 0int))),
        };
        proof {
            assert(r.elements() =~= Seq::<T::Element>::empty());
            assert(r.arena().canonical());
        }
        Box::new(r)
    }

    /// An empty tree of 33 levels: paths of 32 entries.
    pub fn new(hasher: Arc<T>) -> (r: Box<Self>)
        ensures
            r.wf(),
            r.elements() == Seq::<T::Element>::empty(),
            r.depth() == 32,
            r.spec_hasher() == *hasher,
    {
        LinkedMerkleTree::new_with_size(hasher, 33)
    }

    /// The hasher.
    pub fn hasher(&self) -> (r: Arc<T>)
        ensures
            *r == self.spec_hasher(),
    {
        share(&self.hasher)
    }

    /// The number of leaves.
    pub fn len(&self) -> (r: usize)
        ensures
            r == self.elements().len(),
    {
        self.leaves.len()
    }

    pub fn is_empty(&self) -> (r: bool)
        ensures
            r == (self.elements().len() == 0),
    {
        self.len() == 0
    }

    /// Whether the tree holds as many leaves as it has room for.
    pub fn is_full(&self) -> (r: bool)
        ensures
            r == (self.elements().len() >= capacity(self.depth())),
    {
        let mut x = self.leaves.len();
        let mut i: usize = 0;
        while i < self.tree_depth && x > 0
            invariant
                i <= self.tree_depth,
                x == shr(self.leaves@.len() as int, i as nat),
            decreases self.tree_depth - i,
        {
            x = x / 2;
            i = i + 1;
        }
        proof {
            lemma_capacity(self.leaves@.len() as int, self.tree_depth as nat);
            if x == 0 {
                lemma_shr_bits(self.leaves@.len() as int, i as nat);
                lemma_shr_bits(self.leaves@.len() as int, self.tree_depth as nat);
            }
        }
        x > 0
    }

    /// The element at `position`, if there is one.
    pub fn get(&self, position: usize) -> (r: Option<&T::Element>)
        ensures
            r == (if position < self.elements().len() {
                Some(&self.elements()[position as int])
            } else {
                None
            }),
    {
        if position < self.leaves.len() {
            Some(&self.leaves[position].element)
        } else {
            None
        }
    }

    /// Copies of all elements, in order.
    pub fn iter_notes(&self) -> (r: Vec<T::Element>)
        ensures
            r@ == self.elements(),
    {
        let mut r: Vec<T::Element> = Vec::new();
        let mut i: usize = 0;
        while i < self.leaves.len()
            invariant
                i <= self.leaves@.len(),
                r@ == self.elements().subrange(0, i as int),
            decreases self.leaves@.len() - i,
        {
            r.push(self.leaves[i].element.copy_element());
            i = i + 1;
            proof {
                assert(r@ =~= self.elements().subrange(0, i as int));
            }
        }
        proof {
            assert(r@ =~= self.elements());
        }
        r
    }

    /// Whether one of the first `past_size` leaves holds `value`.
    pub fn contained(&self, value: &T::Element, past_size: usize) -> (r: bool)
        ensures
            r == exists|k: int|
                0 <= k < past_size && k < self.elements().len() && self.elements()[k] == *value,
    {
        let mut i: usize = 0;
        while i < self.leaves.len() && i < past_size
            invariant
                i <= self.leaves@.len(),
                forall|k: int| 0 <= k < i ==> self.elements()[k] != *value,
            decreases self.leaves@.len() - i,
        {
            if self.leaves[i].element.same_element(value) {
                assert(self.elements()[i as int] == *value);
                return true;
            }
            i = i + 1;
        }
        false
    }

    /// Whether some leaf holds `value`.
    pub fn contains(&self, value: &T::Element) -> (r: bool)
        ensures
            r == self.elements().contains(*value),
    {
        let r = self.contained(value, self.len());
        proof {
            if r {
                let k = choose|k: int|
                    0 <= k < self.elements().len() && self.elements()[k] == *value;
                assert(self.elements()[k] == *value);
            }
        }
        r
    }

    /// The leaf hash of leaf `k`.
    fn leaf_hash(&self, k: usize) -> (r: HashOf<T>)
        requires
            k < self.leaves@.len(),
        ensures
            r == self.arena().hashes()[k as int],
    {
        self.leaves[k].element.merkle_hash()
    }

    /// A copy of the node at `index`.
    pub fn node_at(&self, index: usize) -> (r: InternalNode<HashOf<T>>)
        requires
            index < self.arena().nodes.len(),
        ensures
            r == self.arena().nodes[index as int],
    {
        match &self.nodes[index] {
            InternalNode::Left { hash_of_sibling, parent } => InternalNode::Left {
                hash_of_sibling: self.hasher.copy_hash(hash_of_sibling),
                parent: *parent,
            },
            InternalNode::Right { hash_of_sibling, left } => InternalNode::Right {
                hash_of_sibling: self.hasher.copy_hash(hash_of_sibling),
                left: *left,
            },
            InternalNode::Empty => InternalNode::Empty,
        }
    }

    /// The number of slots of the arena, the `Empty` one included.
    pub fn node_count(&self) -> (r: usize)
        ensures
            r == self.arena().nodes.len(),
    {
        self.nodes.len()
    }

    /// The leaf at `position`, if there is one.
    pub fn leaf_at(&self, position: usize) -> (r: Option<&LeafNode<T::Element>>)
        ensures
            r == (if position < self.arena().leaves.len() {
                Some(&self.arena().leaves[position as int])
            } else {
                None
            }),
    {
        if position < self.leaves.len() {
            Some(&self.leaves[position])
        } else {
            None
        }
    }

    /// The parent of the node at `index`: a left node's own, a right node's
    /// through its left sibling, none for `Empty`.
    fn parent_index(&self, index: usize) -> (r: usize)
        requires
            index < self.nodes@.len(),
            forall|i: int|
                0 <= i < self.nodes@.len() ==> match #[trigger] self.nodes@[i] {
                    InternalNode::Right { left, .. } => left < self.nodes@.len(),
                    _ => true,
                },
        ensures
            match self.nodes@[index as int] {
                InternalNode::Left { parent, .. } => r == parent,
                InternalNode::Right { left, .. } => match self.nodes@[left as int] {
                    InternalNode::Left { parent, .. } => r == parent,
                    _ => r == 0,
                },
                InternalNode::Empty => r == 0,
            },
    {
        match &self.nodes[index] {
            InternalNode::Left { parent, .. } => *parent,
            InternalNode::Right { left, .. } => {
                let l = *left;
                assert(self.nodes@[index as int] is Right);
                match &self.nodes[l] {
                    InternalNode::Left { parent, .. } => *parent,
                    _ => 0,
                }
            },
            InternalNode::Empty => 0,
        }
    }

    /// The root hash: `None` for an empty tree, else the root of the tree
    /// padded on the right by pairing each vacant position's neighbour with
    /// itself.
    pub fn root_hash(&self) -> (r: Option<HashOf<T>>)
        requires
            self.wf(),
        ensures
            r == (if self.elements().len() == 0 {
                None
            } else {
                Some(self.root_of(self.leaf_hashes()))
            }),
    {
        proof {
            self.lemma_hashes();
        }
        if self.is_empty() {
            return None;
        }
        let ghost a = self.arena();
        let ghost n = a.n();
        let left_hash = self.leaf_hash(0);
        let right_hash = if self.leaves.len() > 1 {
            self.leaf_hash(1)
        } else {
            self.hasher.copy_hash(&left_hash)
        };
        let mut depth: usize = 0;
        let mut current_hash = self.hasher.combine_hash(depth, &left_hash, &right_hash);
        let mut current_node_index = self.leaves[0].parent;
        depth = 1;
        proof {
            assert(a.lvl(1)[0] == pair_at(a.hasher, a.lvl(0), 0, 0));
            if n >= 2 {
                lemma_top(n);
                lemma_shr_nonneg(n - 1, 1);
                assert(valid_pos(n, 1, 0));
                assert(a.leaves[0].parent == a.slot[(1int, 0int / 2)]);
            }
        }
        while depth != self.tree_depth
            invariant
                self.wf(),
                a == self.arena(),
                n == a.n(),
                n >= 1,
                1 <= depth <= self.tree_depth,
                current_hash == a.lvl(depth as int)[0],
                current_node_index == (if depth <= a.top() {
                    a.slot[(depth as int, 0)]
                } else {
                    0
                }),
            decreases self.tree_depth - depth,
        {
            proof {
                lemma_level_len(a.hasher, a.hashes(), depth as nat);
                lemma_shr_bits(n - 1, depth as nat);
                lemma_shr_nonneg(n - 1, depth as nat);
                if depth <= a.top() {
                    assert(valid_pos(n, depth as int, 0));
                    if depth < a.top() {
                        lemma_shr_bits(n - 1, (depth + 1) as nat);
                        assert(valid_pos(n, depth + 1, 0));
                    }
                }
                assert(a.lvl(depth + 1)[0] == pair_at(a.hasher, a.lvl(depth as int), depth as int, 0));
            }
            let current_node = self.node_at(current_node_index);
            current_hash =
            match current_node {
                InternalNode::Left { hash_of_sibling, .. } => self.hasher.combine_hash(
                    depth,
                    &current_hash,
                    &hash_of_sibling,
                ),
                InternalNode::Right { hash_of_sibling, .. } => self.hasher.combine_hash(
                    depth,
                    &hash_of_sibling,
                    &current_hash,
                ),
                InternalNode::Empty => self.hasher.combine_hash(depth, &current_hash, &current_hash),
            };
            proof {
                self.lemma_right_links();
            }
            current_node_index = self.parent_index(current_node_index);
            depth = depth + 1;
        }
        Some(current_hash)
    }

    /// Every right node names a slot of the arena as its left sibling.
    proof fn lemma_right_links(&self)
        requires
            self.arena().shaped(1),
        ensures
            forall|i: int|
                0 <= i < self.nodes@.len() ==> match #[trigger] self.nodes@[i] {
                    InternalNode::Right { left, .. } => left < self.nodes@.len(),
                    _ => true,
                },
    {
        let a = self.arena();
        assert forall|i: int| 0 <= i < self.nodes@.len() implies match #[trigger] self.nodes@[i] {
            InternalNode::Right { left, .. } => left < self.nodes@.len(),
            _ => true,
        } by {
            if i >= 1 && self.nodes@[i] is Right {
                let p = a.pos[i];
                assert(valid_pos(a.n(), p.0, p.1));
                assert(valid_pos(a.n(), p.0, p.1 - 1));
            }
        }
    }

    /// The root the tree had when it held its first `past_size` leaves:
    /// `None` when `past_size` is zero or more than the number of leaves.
    pub fn past_root(&self, past_size: usize) -> (r: Option<HashOf<T>>)
        requires
            self.wf(),
        ensures
            r == (if past_size == 0 || past_size > self.elements().len() {
                None
            } else {
                Some(self.root_of(self.leaf_hashes().subrange(0, past_size as int)))
            }),
    {
        proof {
            self.lemma_hashes();
        }
        let root_depth = depth_at_leaf_count(past_size);
        if self.is_empty() || past_size > self.len() || past_size == 0 {
            return None;
        }
        let ghost a = self.arena();
        let ghost n = a.n();
        let ghost hs = a.hashes();
        let ghost ps = hs.subrange(0, past_size as int);
        let ghost x = past_size - 1;
        let leaf_index = past_size - 1;
        let mut current_node_index = self.leaves[leaf_index].parent;
        let mut current_hash;
        if is_right_leaf(leaf_index) {
            current_hash = self.hasher.combine_hash(
                0,
                &self.leaf_hash(leaf_index - 1),
                &self.leaf_hash(leaf_index),
            );
        } else {
            current_hash = self.hasher.combine_hash(
                0,
                &self.leaf_hash(leaf_index),
                &self.leaf_hash(leaf_index),
            );
        }
        proof {
            lemma_bits_within(past_size as int, a.depth);
            lemma_bits_within(n, a.depth);
            lemma_level_len(a.hasher, ps, 1);
            lemma_last_step(x, 0);
            assert(shr(x, 0) == x);
            assert(shr(x, 1) == x / 2);
            assert(level(a.hasher, ps, 0) == ps);
            assert(level(a.hasher, ps, 1)[x / 2] == pair_at(a.hasher, ps, 0, x / 2));
            assert(ps[x] == hs[x]);
            if x >= 1 {
                assert(ps[x - 1] == hs[x - 1]);
            }
            if n >= 2 && root_depth > 1 {
                lemma_valid_pos_mono(past_size as int, n, 1, x / 2);
                lemma_shr_nonneg(x, 1);
                lemma_top(past_size as int);
                assert(valid_pos(past_size as int, 1, x / 2));
                assert(a.leaves[x].parent == a.slot[(1, x / 2)]);
            }
        }
        let bound = if root_depth < self.tree_depth {
            root_depth
        } else {
            self.tree_depth
        };
        let mut depth: usize = 1;
        while depth < bound
            invariant
                self.wf(),
                a == self.arena(),
                n == a.n(),
                hs == a.hashes(),
                ps == hs.subrange(0, past_size as int),
                1 <= past_size <= n,
                x == past_size - 1,
                root_depth == bits(x) + 1,
                bits(x) <= a.depth,
                bits(n - 1) <= a.depth,
                bound == if root_depth < self.tree_depth {
                    root_depth
                } else {
                    self.tree_depth
                },
                1 <= depth,
                depth <= bound || bound == 0,
                current_hash == level(a.hasher, ps, depth as nat)[shr(x, depth as nat)],
                depth < bound ==> current_node_index == a.slot[(depth as int, shr(x, depth as nat))],
            decreases bound - depth,
        {
            let ghost l = depth as int;
            let ghost j = shr(x, depth as nat);
            proof {
                lemma_shr_bits(x, l as nat);
                lemma_shr_nonneg(x, l as nat);
                lemma_shr_succ(x, l as nat);
                lemma_shr_mono(x, n - 1, l as nat);
                lemma_level_len(a.hasher, ps, l as nat);
                lemma_level_len(a.hasher, hs, l as nat);
                lemma_top(past_size as int);
                assert(valid_pos(past_size as int, l, j));
                lemma_valid_pos_mono(past_size as int, n, l, j);
                assert(valid_pos(n, l, j));
                lemma_last_step(x, l as nat);
                assert(level(a.hasher, ps, (l + 1) as nat)[j / 2] == pair_at(
                    a.hasher,
                    level(a.hasher, ps, l as nat),
                    l,
                    j / 2,
                ));
                if j % 2 == 1 {
                    assert(ps.subrange(0, past_size as int) =~= hs.subrange(0, past_size as int));
                    lemma_level_prefix(a.hasher, ps, hs, past_size as int, l as nat, j - 1);
                    assert(valid_pos(n, l, j - 1));
                }
                if l + 1 < bound {
                    lemma_shr_bits(x, (l + 1) as nat);
                    lemma_shr_nonneg(x, (l + 1) as nat);
                    assert(valid_pos(past_size as int, l + 1, j / 2));
                    lemma_valid_pos_mono(past_size as int, n, l + 1, j / 2);
                    assert(valid_pos(n, l + 1, j / 2));
                    lemma_shr_bits(n - 1, (l + 1) as nat);
                }
                self.lemma_right_links();
            }
            match self.node_at(current_node_index) {
                InternalNode::Empty => {
                    proof {
                        assert(false);
                    }
                },
                InternalNode::Left { parent, .. } => {
                    current_hash = self.hasher.combine_hash(depth, &current_hash, &current_hash);
                    current_node_index = parent;
                },
                InternalNode::Right { left, hash_of_sibling } => {
                    current_hash = self.hasher.combine_hash(depth, &hash_of_sibling, &current_hash);
                    current_node_index = self.parent_index(left);
                },
            }
            depth = depth + 1;
        }
        proof {
            lemma_shr_bits(x, bound as nat);
            lemma_level_len(a.hasher, ps, bound as nat);
        }
        let mut depth = root_depth;
        while depth < self.tree_depth
            invariant
                a == self.arena(),
                root_depth <= depth,
                root_depth <= self.tree_depth ==> depth <= self.tree_depth,
                root_depth == bits(x) + 1,
                x == past_size - 1,
                ps.len() == past_size,
                past_size >= 1,
                current_hash == level(a.hasher, ps, (if root_depth <= self.tree_depth {
                    depth
                } else {
                    self.tree_depth
                }) as nat)[0],
            decreases self.tree_depth - depth,
        {
            proof {
                lemma_shr_bits(x, depth as nat);
                lemma_level_len(a.hasher, ps, depth as nat);
                assert(level(a.hasher, ps, (depth + 1) as nat)[0] == pair_at(
                    a.hasher,
                    level(a.hasher, ps, depth as nat),
                    depth as int,
                    0,
                ));
            }
            current_hash = self.hasher.combine_hash(depth, &current_hash, &current_hash);
            depth = depth + 1;
        }
        proof {
            assert(ps == self.leaf_hashes().subrange(0, past_size as int));
        }
        Some(current_hash)
    }

    /// The authentication path of the leaf at `position`, with the tree's
    /// size and root: `None` when there is no such leaf.
    pub fn witness(&self, position: usize) -> (r: Option<Witness<T>>)
        requires
            self.wf(),
        ensures
            r is Some <==> position < self.elements().len(),
            r matches Some(w) ==> {
                &&& w.tree_size == self.elements().len()
                &&& w.root_hash == self.root_of(self.leaf_hashes())
                &&& w.auth_path@ == auth_path(
                    self.spec_hasher(),
                    self.leaf_hashes(),
                    self.depth(),
                    position as int,
                )
            },
    {
        proof {
            self.lemma_hashes();
        }
        if self.leaves.len() == 0 || position >= self.leaves.len() {
            return None;
        }
        let ghost a = self.arena();
        let ghost n = a.n();
        let ghost hs = a.hashes();
        let ghost path = auth_path(a.hasher, hs, a.depth, position as int);
        let mut current_hash = self.leaf_hash(position);
        let mut current_position = self.leaves[position].parent;
        let mut authentication_path: Vec<WitnessNode<HashOf<T>>> = Vec::new();
        if is_right_leaf(position) {
            let sibling_hash = self.leaf_hash(position - 1);
            current_hash = self.hasher.combine_hash(0, &sibling_hash, &current_hash);
            authentication_path.push(WitnessNode::Right(sibling_hash));
        } else if position < self.leaves.len() - 1 {
            let sibling_hash = self.leaf_hash(position + 1);
            current_hash = self.hasher.combine_hash(0, &current_hash, &sibling_hash);
            authentication_path.push(WitnessNode::Left(sibling_hash));
        } else {
            authentication_path.push(WitnessNode::Left(self.hasher.copy_hash(&current_hash)));
            current_hash = self.hasher.combine_hash(0, &current_hash, &current_hash);
        }
        proof {
            lemma_bits_within(n, a.depth);
            lemma_level_len(a.hasher, hs, 1);
            lemma_last_step(position as int, 0);
            assert(shr(position as int, 0) == position);
            assert(level(a.hasher, hs, 0) == hs);
            assert(level(a.hasher, hs, 1)[position as int / 2] == pair_at(a.hasher, hs, 0, position as int / 2));
            assert(path[0] == path_entry(a.hasher, hs, 0, position as int));
            assert(authentication_path@ =~= path.subrange(0, 1));
            lemma_shr_mono(position as int, n - 1, 1);
            lemma_shr_bits(n - 1, 1);
            if n >= 2 {
                lemma_top(n);
                assert(valid_pos(n, 1, position as int / 2));
                assert(a.leaves[position as int].parent == a.slot[(1int, position as int / 2)]);
            }
        }
        let mut depth: usize = 1;
        while depth < self.tree_depth
            invariant
                self.wf(),
                a == self.arena(),
                n == a.n(),
                hs == a.hashes(),
                path == auth_path(a.hasher, hs, a.depth, position as int),
                position < n,
                bits(n - 1) <= a.depth,
                1 <= depth <= self.tree_depth,
                authentication_path@ == path.subrange(0, depth as int),
                current_hash == level(a.hasher, hs, depth as nat)[shr(position as int, depth as nat)],
                current_position == (if depth <= a.top() {
                    a.slot[(depth as int, shr(position as int, depth as nat))]
                } else {
                    0
                }),
            decreases self.tree_depth - depth,
        {
            let ghost l = depth as int;
            let ghost j = shr(position as int, depth as nat);
            proof {
                lemma_shr_nonneg(position as int, l as nat);
                lemma_shr_mono(position as int, n - 1, l as nat);
                lemma_shr_bits(n - 1, l as nat);
                lemma_shr_nonneg(n - 1, l as nat);
                lemma_level_len(a.hasher, hs, l as nat);
                lemma_last_step(position as int, l as nat);
                assert(level(a.hasher, hs, (l + 1) as nat)[j / 2] == pair_at(
                    a.hasher,
                    level(a.hasher, hs, l as nat),
                    l,
                    j / 2,
                ));
                assert(path[l] == path_entry(a.hasher, hs, l as nat, position as int));
                if l <= a.top() {
                    assert(valid_pos(n, l, j));
                    if j % 2 == 1 {
                        assert(valid_pos(n, l, j - 1));
                    }
                    if l < a.top() {
                        lemma_shr_bits(n - 1, (l + 1) as nat);
                        lemma_shr_mono(position as int, n - 1, (l + 1) as nat);
                        lemma_last_step(n - 1, l as nat);
                        lemma_shr_nonneg(position as int, (l + 1) as nat);
                        assert(valid_pos(n, l + 1, j / 2));
                    }
                }
                self.lemma_right_links();
            }
            match self.node_at(current_position) {
                InternalNode::Empty => {
                    authentication_path.push(WitnessNode::Left(self.hasher.copy_hash(&current_hash)));
                    current_hash = self.hasher.combine_hash(depth, &current_hash, &current_hash);
                },
                InternalNode::Left { parent, hash_of_sibling } => {
                    current_hash = self.hasher.combine_hash(depth, &current_hash, &hash_of_sibling);
                    authentication_path.push(WitnessNode::Left(hash_of_sibling));
                    current_position = parent;
                },
                InternalNode::Right { left, hash_of_sibling } => {
                    current_hash = self.hasher.combine_hash(depth, &hash_of_sibling, &current_hash);
                    authentication_path.push(WitnessNode::Right(hash_of_sibling));
                    current_position = self.parent_index(left);
                },
            }
            depth = depth + 1;
            proof {
                assert(authentication_path@ =~= path.subrange(0, depth as int));
            }
        }
        proof {
            lemma_capacity(position as int, a.depth);
            lemma_shr_bits(position as int, a.depth);
            assert(path.subrange(0, a.depth as int) =~= path);
        }
        Some(Witness { tree_size: self.leaves.len(), root_hash: current_hash, auth_path: authentication_path })
    }

    /// Recalculate the cached hashes on the path from the last leaf up to
    /// the root.
    fn rehash_right_path(&mut self)
        requires
            old(self).arena().shaped(1),
            old(self).arena().canonical(),
            old(self).leaves@.len() >= 1,
        ensures
            final(self).arena().wf(),
            final(self).leaves@ == old(self).leaves@,
            final(self).nodes@.len() == old(self).nodes@.len(),
            final(self).slot == old(self).slot,
            final(self).pos == old(self).pos,
            final(self).hasher == old(self).hasher,
            final(self).tree_depth == old(self).tree_depth,
    {
        let ghost a0 = self.arena();
        let ghost n = a0.n();
        let ghost m = n - 1;
        let ghost hs = a0.hashes();
        let mut depth: usize = 0;
        let leaf_index = self.leaves.len() - 1;
        let mut parent_index = self.leaves[leaf_index].parent;
        let mut parent_hash = if is_right_leaf(leaf_index) {
            self.hasher.combine_hash(depth, &self.leaf_hash(leaf_index - 1), &self.leaf_hash(leaf_index))
        } else {
            self.hasher.combine_hash(depth, &self.leaf_hash(leaf_index), &self.leaf_hash(leaf_index))
        };
        proof {
            lemma_bits_within(n, a0.depth);
            lemma_level_len(a0.hasher, hs, 1);
            lemma_last_step(m, 0);
            assert(shr(m, 0) == m);
            assert(level(a0.hasher, hs, 0) == hs);
            assert(level(a0.hasher, hs, 1)[m / 2] == pair_at(a0.hasher, hs, 0, m / 2));
            if n >= 2 {
                lemma_top(n);
                lemma_shr_bits(m, 1);
                assert(valid_pos(n, 1, m / 2));
                assert(a0.leaves[m].parent == a0.slot[(1, m / 2)]);
            }
        }
        loop
            invariant_except_break
                depth <= a0.top(),
                n >= 2 ==> self.arena().positions_ok(depth + 1),
                n >= 2 ==> parent_hash == a0.lvl(depth + 1)[shr(m, (depth + 1) as nat)],
                parent_index == (if depth + 1 <= a0.top() {
                    a0.slot[(depth + 1, shr(m, (depth + 1) as nat))]
                } else {
                    0
                }),
            invariant
                a0.shaped(1),
                n == a0.n(),
                n >= 1,
                m == n - 1,
                hs == a0.hashes(),
                self.arena() == (Arena { nodes: self.nodes@, ..a0 }),
                self.nodes@.len() == a0.nodes.len(),
                self.nodes@[0] is Empty,
                a0.top() <= a0.depth,
            ensures
                n >= 2 ==> self.arena().positions_ok(a0.top() + 1),
            decreases a0.top() - depth,
        {
            let ghost a = self.arena();
            let ghost l = depth + 1;
            let ghost j = shr(m, l as nat);
            proof {
                if n >= 2 && l <= a0.top() {
                    lemma_shr_bits(m, l as nat);
                    lemma_shr_nonneg(m, l as nat);
                    lemma_level_len(a0.hasher, hs, l as nat);
                    lemma_last_step(m, l as nat);
                    assert(valid_pos(n, l, j));
                    if j % 2 == 1 {
                        assert(valid_pos(n, l, j - 1));
                    }
                    if l < a0.top() {
                        lemma_shr_bits(m, (l + 1) as nat);
                        lemma_shr_nonneg(m, (l + 1) as nat);
                        assert(valid_pos(n, l + 1, j / 2));
                    }
                    assert(a0.lvl(l + 1)[j / 2] == pair_at(a0.hasher, a0.lvl(l), l, j / 2));
                }
                self.lemma_right_links();
            }
            let node = self.node_at(parent_index);
            depth = depth + 1;
            match node {
                InternalNode::Empty => {
                    proof {
                        if n >= 2 && l <= a0.top() {
                            assert(a.positions_ok(l));
                            assert(valid_pos(a.n(), l, j));
                            assert(a.node_ok(l, j, l));
                            assert(false);
                        }
                    }
                    break;
                },
                InternalNode::Left { parent, hash_of_sibling } => {
                    self.nodes.set(
                        parent_index,
                        InternalNode::Left { parent, hash_of_sibling: self.hasher.copy_hash(&parent_hash) },
                    );
                    proof {
                        self.lemma_rehash_left(a, l, j);
                    }
                    parent_index = parent;
                    parent_hash = self.hasher.combine_hash(depth, &parent_hash, &parent_hash);
                },
                InternalNode::Right { left, hash_of_sibling } => {
                    parent_index = self.parent_index(left);
                    self.nodes.set(
                        left,
                        InternalNode::Left {
                            parent: parent_index,
                            hash_of_sibling: self.hasher.copy_hash(&parent_hash),
                        },
                    );
                    proof {
                        self.lemma_rehash_right(a, l, j);
                    }
                    parent_hash = self.hasher.combine_hash(depth, &hash_of_sibling, &parent_hash);
                },
            }
        }
        proof {
            let b = self.arena();
            if n >= 2 {
                assert(b.slots_ok());
                assert(b.leaves_ok());
                assert(b.level_order());
                assert(b.growth_order());
            }
        }
    }

    /// Refreshing the last node of level `l`, a left node, makes level `l`
    /// current.
    proof fn lemma_rehash_left(&self, a: Arena<T>, l: int, j: int)
        requires
            a.shaped(1),
            a.n() >= 2,
            a.positions_ok(l),
            1 <= l <= a.top(),
            j == shr(a.n() - 1, l as nat),
            valid_pos(a.n(), l, j),
            a.nodes[a.slot[(l, j)]] matches InternalNode::Left { parent, .. } && self.nodes@
                == a.nodes.update(
                a.slot[(l, j)],
                InternalNode::Left { parent, hash_of_sibling: a.lvl(l)[j] },
            ),
            self.arena() == (Arena { nodes: self.nodes@, ..a }),
        ensures
            self.arena().positions_ok(l + 1),
    {
        let b = self.arena();
        let s = a.slot[(l, j)];
        assert forall|l2: int, j2: int| #[trigger] valid_pos(b.n(), l2, j2) implies {
            &&& b.slot.contains_key((l2, j2))
            &&& 1 <= b.slot[(l2, j2)] < b.nodes.len()
            &&& b.pos[b.slot[(l2, j2)]] == (l2, j2)
            &&& b.node_ok(l2, j2, l + 1)
        } by {
            assert(valid_pos(a.n(), l2, j2));
            lemma_shr_nonneg(a.n() - 1, l2 as nat);
            if (l2, j2) != (l, j) {
                assert(b.slot[(l2, j2)] != s);
                if l2 == l && j2 + 1 >= j && j2 != j {
                    assert(j2 == j - 1);
                }
            }
        }
    }

    /// Refreshing the left sibling of the last node of level `l`, a right
    /// node, makes level `l` current.
    proof fn lemma_rehash_right(&self, a: Arena<T>, l: int, j: int)
        requires
            a.shaped(1),
            a.n() >= 2,
            a.positions_ok(l),
            1 <= l <= a.top(),
            j == shr(a.n() - 1, l as nat),
            valid_pos(a.n(), l, j),
            valid_pos(a.n(), l, j - 1),
            a.nodes[a.slot[(l, j)]] is Right,
            a.nodes[a.slot[(l, j - 1)]] matches InternalNode::Left { parent, .. } && self.nodes@
                == a.nodes.update(
                a.slot[(l, j - 1)],
                InternalNode::Left { parent, hash_of_sibling: a.lvl(l)[j] },
            ),
            self.arena() == (Arena { nodes: self.nodes@, ..a }),
        ensures
            self.arena().positions_ok(l + 1),
    {
        let b = self.arena();
        let s = a.slot[(l, j - 1)];
        assert forall|l2: int, j2: int| #[trigger] valid_pos(b.n(), l2, j2) implies {
            &&& b.slot.contains_key((l2, j2))
            &&& 1 <= b.slot[(l2, j2)] < b.nodes.len()
            &&& b.pos[b.slot[(l2, j2)]] == (l2, j2)
            &&& b.node_ok(l2, j2, l + 1)
        } by {
            assert(valid_pos(a.n(), l2, j2));
            lemma_shr_nonneg(a.n() - 1, l2 as nat);
            if (l2, j2) != (l, j - 1) {
                assert(b.slot[(l2, j2)] != s);
            }
        }
    }

    /// Insert `element` as the new last leaf and update the cached hashes.
    /// The tree must not be full.
    pub fn add(&mut self, element: T::Element)
        requires
            old(self).wf(),
            old(self).elements().len() < capacity(old(self).depth()),
        ensures
            final(self).wf(),
            final(self).elements() == old(self).elements().push(element),
            final(self).depth() == old(self).depth(),
            final(self).spec_hasher() == old(self).spec_hasher(),
    {
        let ghost a0 = self.arena();
        let index_of_new_leaf = self.leaves.len();
        if index_of_new_leaf == 0 {
            self.leaves.push(LeafNode { element, parent: 0 });
            proof {
                assert(self.elements() =~= old(self).elements().push(element));
            }
            return;
        }
        let leaf_hash = element.merkle_hash();
        if is_right_leaf(index_of_new_leaf) {
            let left_parent = self.leaves[index_of_new_leaf - 1].parent;
            proof {
                if a0.n() >= 2 {
                    lemma_top(a0.n());
                    lemma_last_step(a0.n() - 1, 0);
                    assert(shr(a0.n() - 1, 0) == a0.n() - 1);
                    lemma_shr_bits(a0.n() - 1, 1);
                    assert(valid_pos(a0.n(), 1, (a0.n() - 1) / 2));
                    assert(a0.leaves[a0.n() - 1].parent == a0.slot[(1, (a0.n() - 1) / 2)]);
                }
            }
            match self.node_at(left_parent) {
                InternalNode::Empty => {
                    let left_hash = self.leaf_hash(0);
                    let new_parent_of_both = InternalNode::Left {
                        parent: 0,
                        hash_of_sibling: self.hasher.combine_hash(0, &left_hash, &leaf_hash),
                    };
                    self.nodes.push(new_parent_of_both);
                    let first = self.leaves.pop();
                    match first {
                        Some(first) => {
                            self.leaves.push(LeafNode { element: first.element, parent: 1 });
                        },
                        None => {},
                    }
                    self.leaves.push(LeafNode { element, parent: 1 });
                    self.slot = Ghost(Map::<(int, int), int>::empty().insert((1, 0), 1));
                    self.pos = Ghost(Seq::empty().push((0int, 0int)).push((1int, 0int)));
                    proof {
                        lemma_add_second_leaf(a0, self.arena());
                        assert(self.arena().canonical());
                    }
                },
                _ => {
                    proof {
                        if a0.n() == 1 {
                            assert(a0.leaves[0].parent == 0);
                        }
                    }
                    self.leaves.push(LeafNode { element, parent: left_parent });
                    proof {
                        lemma_add_right_leaf(a0, self.arena());
                        assert(canon(a0.n() + 1) == canon(a0.n()));
                        assert(self.arena().canonical());
                    }
                },
            }
        } else {
            let new_parent_index = self.nodes.len();
            let mut previous_parent_index = self.leaves[index_of_new_leaf - 1].parent;
            let mut my_hash = self.hasher.combine_hash(0, &leaf_hash, &leaf_hash);
            let mut depth: usize = 1;
            let ghost k = a0.n();
            let ghost m = k - 1;
            let ghost n0 = a0.nodes.len() as int;
            proof {
                lemma_top(k);
                lemma_capacity(k, a0.depth);
                lemma_last_step(k, 0);
                lemma_last_step(m, 0);
                assert(shr(k, 0) == k && shr(m, 0) == m);
                assert(valid_pos(k, 1, m / 2));
                assert(a0.leaves[m].parent == a0.slot[(1, m / 2)]);
                self.lemma_right_links();
            }
            loop
                invariant_except_break
                    1 <= depth <= a0.top(),
                    shr(k, depth as nat) == shr(m, depth as nat) + 1,
                    previous_parent_index == a0.slot[(depth as int, shr(m, depth as nat))],
                    self.nodes@.len() == n0 + depth - 1,
                    forall|l: int|
                        1 <= l < depth ==> match #[trigger] self.nodes@[n0 + l - 1] {
                            InternalNode::Left { parent, .. } => parent == n0 + l,
                            _ => false,
                        },
                invariant
                    a0.wf(),
                    k == a0.n(),
                    k >= 2,
                    k % 2 == 0,
                    m == k - 1,
                    k < capacity(a0.depth),
                    n0 == a0.nodes.len(),
                    n0 == new_parent_index,
                    self.leaves@ == a0.leaves,
                    self.hasher == old(self).hasher,
                    self.tree_depth == old(self).tree_depth,
                    self.slot == old(self).slot,
                    self.pos == old(self).pos,
                    self.nodes@.len() >= n0,
                    forall|l: int| 1 <= l <= depth ==> #[trigger] shr(k, l as nat) == shr(m, l as nat) + 1,
                    forall|l: int| 1 <= l < depth ==> #[trigger] shr(m, l as nat) % 2 == 1,
                    forall|i: int|
                        0 <= i < n0 && !(self.nodes@.len() > n0 + depth && i == a0.slot[(
                            depth as int,
                            0,
                        )]) ==> #[trigger] self.nodes@[i] == a0.nodes[i],
                    forall|i: int|
                        0 <= i < self.nodes@.len() ==> match #[trigger] self.nodes@[i] {
                            InternalNode::Right { left, .. } => left < n0,
                            _ => true,
                        },
                ensures
                    1 <= depth <= a0.top(),
                    shr(m, depth as nat) % 2 == 0,
                    chained(
                        a0,
                        Arena {
                            leaves: a0.leaves.push(LeafNode { element, parent: n0 as usize }),
                            nodes: self.nodes@,
                            slot: chain_slot(a0, depth as int, depth == a0.top()),
                            pos: chain_pos(a0, depth as int, depth == a0.top()),
                            ..a0
                        },
                        depth as int,
                        depth == a0.top(),
                    ),
                decreases a0.top() - depth,
            {
                let ghost l = depth as int;
                let ghost j = shr(m, depth as nat);
                proof {
                    lemma_shr_bits(m, l as nat);
                    lemma_shr_nonneg(m, l as nat);
                    assert(valid_pos(k, l, j));
                    assert(a0.node_ok(l, j, a0.top() + 1));
                    assert(self.nodes@[a0.slot[(l, j)]] == a0.nodes[a0.slot[(l, j)]]);
                }
                match self.node_at(previous_parent_index) {
                    InternalNode::Left { hash_of_sibling, parent } => {
                        let new_node = InternalNode::Right {
                            left: previous_parent_index,
                            hash_of_sibling: self.hasher.copy_hash(&hash_of_sibling),
                        };
                        self.nodes.push(new_node);
                        if parent == 0 {
                            let new_parent = InternalNode::Left {
                                parent: 0,
                                hash_of_sibling: self.hasher.combine_hash(
                                    depth,
                                    &hash_of_sibling,
                                    &my_hash,
                                ),
                            };
                            self.nodes.push(new_parent);
                            let top = self.nodes.len() - 1;
                            self.nodes.set(
                                previous_parent_index,
                                InternalNode::Left { hash_of_sibling, parent: top },
                            );
                        }
                        proof {
                            let b = Arena {
                                leaves: a0.leaves.push(LeafNode { element, parent: n0 as usize }),
                                nodes: self.nodes@,
                                slot: chain_slot(a0, l, l == a0.top()),
                                pos: chain_pos(a0, l, l == a0.top()),
                                ..a0
                            };
                            if l < a0.top() {
                                lemma_last_step(m, l as nat);
                                lemma_shr_bits(m, (l + 1) as nat);
                                lemma_shr_nonneg(m, (l + 1) as nat);
                                assert(valid_pos(k, l + 1, j / 2));
                                assert(parent != 0);
                            } else {
                                assert(j == 0);
                            }
                            assert forall|i: int|
                                0 <= i < a0.n() implies #[trigger] b.leaves[i] == a0.leaves[i] by {}
                            assert(chained(a0, b, l, l == a0.top()));
                        }
                        break;
                    },
                    InternalNode::Right { left, .. } => {
                        proof {
                            assert(valid_pos(k, l, j - 1));
                            assert(a0.node_ok(l, j - 1, a0.top() + 1));
                            assert(self.nodes@[a0.slot[(l, j - 1)]] == a0.nodes[a0.slot[(l, j - 1)]]);
                            lemma_last_step(m, l as nat);
                            lemma_last_step(k, l as nat);
                            if l >= a0.top() {
                                lemma_shr_bits(m, a0.top() as nat);
                            }
                            lemma_shr_bits(m, (l + 1) as nat);
                            lemma_shr_nonneg(m, (l + 1) as nat);
                            assert(valid_pos(k, l + 1, j / 2));
                        }
                        my_hash = self.hasher.combine_hash(depth, &my_hash, &my_hash);
                        let idx = self.nodes.len();
                        self.nodes.push(
                            InternalNode::Left { parent: 0, hash_of_sibling: self.hasher.copy_hash(&my_hash) },
                        );
                        let next = self.nodes.len();
                        self.nodes.set(
                            idx,
                            InternalNode::Left { parent: next, hash_of_sibling: self.hasher.copy_hash(&my_hash) },
                        );
                        previous_parent_index = self.parent_index(left);
                        depth = depth + 1;
                    },
                    InternalNode::Empty => {
                        proof {
                            assert(false);
                        }
                        break;
                    },
                }
            }
            self.leaves.push(LeafNode { element, parent: new_parent_index });
            self.slot = Ghost(chain_slot(a0, depth as int, depth == a0.top()));
            self.pos = Ghost(chain_pos(a0, depth as int, depth == a0.top()));
            proof {
                lemma_add_chain(a0, self.arena(), depth as int, depth == a0.top());
                lemma_chain_stop_at(m, 1, depth as nat);
                assert(canon(k + 1).0 == chain_map(
                    canon(k).0,
                    canon(k).1,
                    k,
                    depth as int,
                    depth == a0.top(),
                ));
                assert(self.arena().canonical());
            }
        }
        proof {
            assert(self.elements() =~= old(self).elements().push(element));
        }
        self.rehash_right_path();
    }

    /// Cut the tree back to its first `past_size` leaves, as it was when it
    /// held that many; nothing changes when `past_size` is not below the
    /// number of leaves.
    pub fn truncate(&mut self, past_size: usize)
        requires
            old(self).wf(),
        ensures
            final(self).wf(),
            final(self).elements() == if past_size < old(self).elements().len() {
                old(self).elements().subrange(0, past_size as int)
            } else {
                old(self).elements()
            },
            final(self).depth() == old(self).depth(),
            final(self).spec_hasher() == old(self).spec_hasher(),
            past_size >= old(self).elements().len() ==> final(self).arena_nodes() == old(
                self,
            ).arena_nodes() && final(self).arena_leaves() == old(self).arena_leaves(),
    {
        let ghost a = self.arena();
        proof {
            self.lemma_right_links();
        }
        if past_size >= self.leaves.len() {
            return;
        }
        self.leaves.truncate(past_size);
        if past_size == 1 {
            let first = self.leaves.pop();
            match first {
                Some(first) => {
                    self.leaves.push(LeafNode { element: first.element, parent: 0 });
                },
                None => {},
            }
        }
        if past_size == 0 || past_size == 1 {
            self.nodes.clear();
            self.nodes.push(InternalNode::Empty);
            self.slot = Ghost(Map::empty());
            self.pos = Ghost(Seq::empty().push((0int, 0int)));
            proof {
                assert(self.elements() =~= old(self).elements().subrange(0, past_size as int));
                lemma_capacity(a.n(), a.depth);
            }
            return;
        }
        let ghost n = a.n();
        let ghost x = past_size - 1;
        let ghost tk = bits(x) as int;
        proof {
            lemma_top(past_size as int);
            lemma_top(n);
            lemma_last_step(x, 0);
            assert(shr(x, 0) == x);
            lemma_shr_bits(x, 1);
            assert(valid_pos(past_size as int, 1, x / 2));
            lemma_valid_pos_mono(past_size as int, n, 1, x / 2);
            assert(a.leaves[x].parent == a.slot[(1, x / 2)]);
            lemma_shr_bits(x, tk as nat);
            assert(valid_pos(past_size as int, tk, 0));
            lemma_valid_pos_mono(past_size as int, n, tk, 0);
        }
        let depth = depth_at_leaf_count(self.leaves.len()) - 2;
        let mut parent = self.leaves[self.leaves.len() - 1].parent;
        let mut max_parent = parent;
        let ghost mut lmax: int = 1;
        let mut i: usize = 0;
        while i < depth
            invariant
                a.wf(),
                self.nodes@ == a.nodes,
                n == a.n(),
                2 <= past_size < n,
                x == past_size - 1,
                tk == bits(x),
                depth == tk - 1,
                tk <= bits(n - 1),
                i <= depth,
                parent == a.slot[(i + 1, shr(x, (i + 1) as nat))],
                1 <= lmax <= i + 1,
                max_parent == a.slot[(lmax, shr(x, lmax as nat))],
                forall|l: int|
                    1 <= l <= i + 1 ==> #[trigger] a.slot[(l, shr(x, l as nat))] <= max_parent,
                forall|q: int|
                    0 <= q < self.nodes@.len() ==> match #[trigger] self.nodes@[q] {
                        InternalNode::Right { left, .. } => left < self.nodes@.len(),
                        _ => true,
                    },
            decreases depth - i,
        {
            let ghost l = (i + 1) as int;
            let ghost j = shr(x, l as nat);
            proof {
                lemma_shr_bits(x, l as nat);
                lemma_shr_nonneg(x, l as nat);
                lemma_shr_bits(x, (l + 1) as nat);
                lemma_shr_nonneg(x, (l + 1) as nat);
                lemma_last_step(x, l as nat);
                assert(valid_pos(past_size as int, l, j));
                lemma_valid_pos_mono(past_size as int, n, l, j);
                assert(valid_pos(past_size as int, l + 1, j / 2));
                lemma_valid_pos_mono(past_size as int, n, l + 1, j / 2);
                assert(a.node_ok(l, j, a.top() + 1));
                if j % 2 == 1 {
                    assert(valid_pos(past_size as int, l, j - 1));
                    lemma_valid_pos_mono(past_size as int, n, l, j - 1);
                    assert(a.node_ok(l, j - 1, a.top() + 1));
                }
            }
            parent = self.parent_index(parent);
            if parent > max_parent {
                max_parent = parent;
                proof {
                    lmax = l + 1;
                }
            }
            i = i + 1;
        }
        proof {
            assert(valid_pos(past_size as int, tk, 0));
            lemma_shr_bits(x, tk as nat);
            lemma_valid_pos_mono(past_size as int, n, tk, 0);
            assert(a.node_ok(tk, 0, a.top() + 1));
            lemma_shr_nonneg(x, lmax as nat);
            assert(valid_pos(past_size as int, lmax, shr(x, lmax as nat)));
            lemma_valid_pos_mono(past_size as int, n, lmax, shr(x, lmax as nat));
            assert(max_parent < a.nodes.len());
        }
        match self.node_at(parent) {
            InternalNode::Left { hash_of_sibling, .. } => {
                self.nodes.set(parent, InternalNode::Left { hash_of_sibling, parent: 0 });
            },
            _ => {
                proof {
                    assert(false);
                }
            },
        }
        let len_now = self.nodes.len();
        proof {
            assert(max_parent < len_now);
        }
        self.nodes.truncate(max_parent + 1);
        self.slot = Ghost(
            Map::new(|p: (int, int)| valid_pos(past_size as int, p.0, p.1), |p: (int, int)| a.slot[p]),
        );
        self.pos = Ghost(a.pos.subrange(0, max_parent + 1));
        proof {
            lemma_truncate(a, self.arena(), past_size as int, max_parent as int, lmax);
            let k = past_size as int;
            lemma_canon(k);
            assert forall|p: (int, int)| #[trigger] canon(k).0.contains_key(p) implies self.slot@[p]
                == canon(k).0[p] by {
                lemma_canon_stable(k, n, p.0, p.1);
            }
            assert forall|p: (int, int)| #[trigger] self.slot@.contains_key(p) <==> canon(k).0.contains_key(
                p,
            ) by {
                assert(canon(k).0.contains_key(p) <==> valid_pos(k, p.0, p.1));
            }
            assert(self.slot@ =~= canon(k).0);
            lemma_canon_stable(k, n, lmax, shr(x, lmax as nat));
            let (lq, jq) = choose|l: int, j: int|
                #[trigger] valid_pos(k, l, j) && canon(k).0[(l, j)] == canon(k).1 - 1;
            lemma_canon_stable(k, n, lq, jq);
            assert(a.slot[(lq, jq)] <= max_parent);
            assert(self.arena().canonical());
            assert(self.elements() =~= old(self).elements().subrange(0, past_size as int));
        }
        self.rehash_right_path();
    }

    /// Append the serialized tree to `writer`: the depth byte (the number
    /// of levels, root included), the leaf count as a little-endian `u32`,
    /// then each element's encoding.
    pub fn write(&self, writer: &mut Vec<u8>) -> (r: Result<(), CodecError>)
        requires
            self.wf(),
        ensures
            r is Ok <==> self.depth() + 1 <= 255 && self.elements().len() <= u32::MAX,
            r is Ok ==> final(writer)@ == old(writer)@ + tree_bytes(
                (self.depth() + 1) as u8,
                self.elements(),
            ),
            r is Err ==> final(writer)@ == old(writer)@ && r == Err::<(), CodecError>(
                CodecError::TooLarge,
            ),
    {
        if self.tree_depth >= 255 || self.leaves.len() > 0xffff_ffff {
            return Err(CodecError::TooLarge);
        }
        writer.push((self.tree_depth + 1) as u8);
        write_u32_le(writer, self.leaves.len() as u32);
        let ghost head = old(writer)@ + seq![(self.depth() + 1) as u8] + le_bytes(
            self.elements().len() as u32,
        );
        proof {
            assert(writer@ =~= head);
            assert(self.elements().subrange(0, 0) =~= Seq::<T::Element>::empty());
            assert(writer@ =~= head + encode_all(self.elements().subrange(0, 0)));
        }
        let mut i: usize = 0;
        while i < self.leaves.len()
            invariant
                i <= self.leaves@.len(),
                self.leaves@.len() == self.elements().len(),
                writer@ == head + encode_all(self.elements().subrange(0, i as int)),
            decreases self.leaves@.len() - i,
        {
            self.leaves[i].element.write(writer);
            proof {
                let es = self.elements().subrange(0, i as int + 1);
                assert(es.drop_last() =~= self.elements().subrange(0, i as int));
                assert(es.last() == self.elements()[i as int]);
                assert(writer@ =~= head + encode_all(es));
            }
            i = i + 1;
        }
        proof {
            assert(self.elements().subrange(0, i as int) =~= self.elements());
            assert(writer@ =~= old(writer)@ + tree_bytes((self.depth() + 1) as u8, self.elements()));
        }
        Ok(())
    }

    /// Rebuild a tree from its serialized form, adding the elements one by
    /// one.
    pub fn read(hasher: Arc<T>, bytes: &[u8]) -> (r: Result<Box<Self>, CodecError>)
        ensures
            r matches Ok(t) ==> t.wf() && t.spec_hasher() == *hasher,
            r matches Ok(t) ==> bytes@ == tree_bytes((t.depth() + 1) as u8, t.elements()),
            bytes@.len() < 5 ==> r == Err::<Box<Self>, CodecError>(CodecError::Malformed),
            bytes@.len() >= 5 && bytes@[0] < 2 ==> r == Err::<Box<Self>, CodecError>(
                CodecError::BadDepth,
            ),
            forall|d: u8, es: Seq<T::Element>|
                #![trigger tree_bytes(d, es)]
                bytes@ == tree_bytes(d, es) && 2 <= d && es.len() <= capacity((d - 1) as nat)
                    && es.len() <= u32::MAX ==> (r matches Ok(t) && t.elements() == es && t.depth() == d - 1),
    {
        if bytes.len() < 5 {
            proof {
                assert forall|d: u8, es: Seq<T::Element>|
                    #![trigger tree_bytes(d, es)]
                    bytes@ == tree_bytes(d, es) implies false by {
                    assert(tree_bytes(d, es).len() >= 5);
                }
            }
            return Err(CodecError::Malformed);
        }
        let tree_depth = bytes[0];
        let count = match read_u32_le(bytes, 1) {
            Some(c) => c,
            None => {
                return Err(CodecError::Malformed);
            },
        };
        proof {
            lemma_le_bytes_of_value(bytes@.subrange(1, 5));
            assert(bytes@.subrange(5, 5) =~= encode_all(Seq::<T::Element>::empty()));
            assert forall|d: u8, es: Seq<T::Element>|
                #![trigger tree_bytes(d, es)]
                bytes@ == tree_bytes(d, es) && es.len() <= u32::MAX implies d == tree_depth && count == es.len() && bytes@.subrange(
                    5,
                    bytes@.len() as int,
                ) == encode_all(es) by {
                let t = tree_bytes(d, es);
                assert(t[0] == d);
                assert(bytes@.subrange(1, 5) =~= le_bytes(es.len() as u32));
                lemma_le_round_trip(es.len() as u32);
                assert(bytes@.subrange(5, bytes@.len() as int) =~= encode_all(es));
            }
        }
        if tree_depth < 2 {
            return Err(CodecError::BadDepth);
        }
        let mut tree = Self::new_with_size(hasher, tree_depth as usize);
        let mut pos: usize = 5;
        let mut i: u32 = 0;
        while i < count
            invariant
                tree.wf(),
                tree.spec_hasher() == *hasher,
                tree.depth() == tree_depth - 1,
                bytes@.len() >= 5,
                bytes@[0] == tree_depth,
                tree_depth >= 2,
                tree.elements().len() == i,
                i <= count,
                5 <= pos <= bytes@.len(),
                bytes@.subrange(1, 5) == le_bytes(count),
                bytes@.subrange(5, pos as int) == encode_all(tree.elements()),
                forall|d: u8, es: Seq<T::Element>|
                    #![trigger tree_bytes(d, es)]
                    bytes@ == tree_bytes(d, es) && es.len() <= u32::MAX ==> d == tree_depth && count == es.len()
                        && bytes@.subrange(5, bytes@.len() as int) == encode_all(es),
                forall|d: u8, es: Seq<T::Element>|
                    #![trigger tree_bytes(d, es)]
                    bytes@ == tree_bytes(d, es) && es.len() <= u32::MAX ==> tree.elements() == es.subrange(0, i as int)
                        && pos == 5 + encode_all(es.subrange(0, i as int)).len(),
            decreases count - i,
        {
            if tree.is_full() {
                return Err(CodecError::TooManyLeaves);
            }
            let hasher_ref = tree.hasher();
            match hasher_ref.read_element(bytes, pos) {
                None => {
                    proof {
                        assert forall|d: u8, es: Seq<T::Element>|
                            #![trigger tree_bytes(d, es)]
                            bytes@ == tree_bytes(d, es) && 2 <= d && es.len() <= capacity(
                                (d - 1) as nat,
                            ) && es.len() <= u32::MAX implies false by {
                            lemma_encode_step(es, i as int);
                            lemma_encode_prefix(es, (i + 1) as int);
                            let e = es[i as int];
                            let lo: int = 5 + encode_all(es.subrange(0, i as int)).len() as int;
                            let rest = bytes@.subrange(5, bytes@.len() as int);
                            let pa = encode_all(es.subrange(0, i as int));
                            let pb = encode_all(es.subrange(0, i as int + 1));
                            let pe = e.spec_encoding();
                            assert(rest.subrange(0, pb.len() as int) == pb);
                            assert(rest.subrange(pa.len() as int, pa.len() + pe.len() as int) =~= pb.subrange(
                                pa.len() as int,
                                pa.len() + pe.len() as int,
                            ));
                            assert(pb.subrange(pa.len() as int, pa.len() + pe.len() as int) =~= pe);
                            assert(bytes@.subrange(lo, lo + pe.len() as int) =~= rest.subrange(
                                pa.len() as int,
                                pa.len() + pe.len() as int,
                            ));
                        }
                    }
                    return Err(CodecError::Malformed);
                },
                Some((element, next)) => {
                    proof {
                        assert forall|d: u8, es: Seq<T::Element>|
                            #![trigger tree_bytes(d, es)]
                            bytes@ == tree_bytes(d, es) && es.len() <= u32::MAX implies element == es[i as int] && next == 5
                                + encode_all(es.subrange(0, i as int + 1)).len() by {
                            lemma_encode_step(es, i as int);
                            lemma_encode_prefix(es, (i + 1) as int);
                            let e = es[i as int];
                            let lo: int = 5 + encode_all(es.subrange(0, i as int)).len() as int;
                            let rest = bytes@.subrange(5, bytes@.len() as int);
                            let pa = encode_all(es.subrange(0, i as int));
                            let pb = encode_all(es.subrange(0, i as int + 1));
                            let pe = e.spec_encoding();
                            assert(rest.subrange(0, pb.len() as int) == pb);
                            assert(rest.subrange(pa.len() as int, pa.len() + pe.len() as int) =~= pb.subrange(
                                pa.len() as int,
                                pa.len() + pe.len() as int,
                            ));
                            assert(pb.subrange(pa.len() as int, pa.len() + pe.len() as int) =~= pe);
                            assert(bytes@.subrange(lo, lo + pe.len() as int) =~= rest.subrange(
                                pa.len() as int,
                                pa.len() + pe.len() as int,
                            ));
                        }
                    }
                    let ghost before = tree.elements();
                    let ghost old_pos = pos;
                    tree.add(element);
                    pos = next;
                    proof {
                        assert(tree.elements().drop_last() =~= before);
                        assert(bytes@.subrange(5, pos as int) =~= bytes@.subrange(5, old_pos as int)
                            + bytes@.subrange(old_pos as int, pos as int));
                        assert forall|d: u8, es: Seq<T::Element>|
                            #![trigger tree_bytes(d, es)]
                            bytes@ == tree_bytes(d, es) && es.len() <= u32::MAX implies tree.elements() == es.subrange(0, i as int + 1) by {
                            assert(es.subrange(0, i as int + 1) =~= es.subrange(0, i as int).push(es[i as int]));
                        }
                    }
                },
            }
            i = i + 1;
        }
        proof {
            assert forall|d: u8, es: Seq<T::Element>|
                #![trigger tree_bytes(d, es)]
                bytes@ == tree_bytes(d, es) && es.len() <= u32::MAX implies tree.elements() == es by {
                assert(es.subrange(0, es.len() as int) =~= es);
            }
        }
        if pos != bytes.len() {
            proof {
                assert forall|d: u8, es: Seq<T::Element>|
                    #![trigger tree_bytes(d, es)]
                    bytes@ == tree_bytes(d, es) && es.len() <= u32::MAX implies false by {
                    assert(es.subrange(0, es.len() as int) =~= es);
                }
            }
            return Err(CodecError::Malformed);
        }
        proof {
            assert(bytes@ =~= tree_bytes((tree.depth() + 1) as u8, tree.elements()));
        }
        Ok(tree)
    }
}

impl<T: MerkleHasher> MerkleTree for LinkedMerkleTree<T> {
    type Hasher = T;

    open spec fn spec_elements(&self) -> Seq<T::Element> {
        self.elements()
    }

    open spec fn spec_depth(&self) -> nat {
        self.depth()
    }

    open spec fn spec_tree_hasher(&self) -> T {
        self.spec_hasher()
    }

    open spec fn spec_wf(&self) -> bool {
        self.wf()
    }

    proof fn lemma_bounds(&self) {
        self.lemma_wf_bounds();
    }

    fn read(hasher: Arc<T>, bytes: &[u8]) -> (r: Result<Box<Self>, CodecError>) {
        LinkedMerkleTree::read(hasher, bytes)
    }

    fn hasher(&self) -> (r: Arc<T>) {
        LinkedMerkleTree::hasher(self)
    }

    fn add(&mut self, element: T::Element) {
        LinkedMerkleTree::add(self, element)
    }

    fn get(&self, position: usize) -> (r: Option<T::Element>) {
        match LinkedMerkleTree::get(self, position) {
            Some(e) => Some(e.copy_element()),
            None => None,
        }
    }

    fn len(&self) -> (r: usize) {
        LinkedMerkleTree::len(self)
    }

    fn truncate(&mut self, past_size: usize) {
        LinkedMerkleTree::truncate(self, past_size)
    }

    fn iter_notes(&self) -> (r: Vec<T::Element>) {
        LinkedMerkleTree::iter_notes(self)
    }

    fn root_hash(&self) -> (r: Option<HashOf<T>>) {
        proof {
            assert(self.leaf_hashes() =~= hashes_of(self.elements()));
        }
        LinkedMerkleTree::root_hash(self)
    }

    fn past_root(&self, past_size: usize) -> (r: Option<HashOf<T>>) {
        proof {
            assert(self.leaf_hashes() =~= hashes_of(self.elements()));
        }
        LinkedMerkleTree::past_root(self, past_size)
    }

    fn contained(&self, value: &T::Element, past_size: usize) -> (r: bool) {
        let r = LinkedMerkleTree::contained(self, value, past_size);
        proof {
            if r {
                let k = choose|k: int|
                    0 <= k < past_size && k < self.elements().len() && self.elements()[k] == *value;
                assert(self.spec_elements()[k] == *value);
            }
        }
        r
    }

    fn contains(&self, value: &T::Element) -> (r: bool) {
        LinkedMerkleTree::contains(self, value)
    }

    fn witness(&self, position: usize) -> (r: Option<Witness<T>>) {
        proof {
            assert(self.leaf_hashes() =~= hashes_of(self.elements()));
        }
        LinkedMerkleTree::witness(self, position)
    }

    fn write(&self, writer: &mut Vec<u8>) -> (r: Result<(), CodecError>) {
        LinkedMerkleTree::write(self, writer)
    }
}

} // verus!
