//! The mathematical model of a fixed-height Merkle tree.
//!
//! The leaf hashes form level 0. Level `l + 1` pairs up the hashes of level
//! `l` with the combine function at depth `l`; a hash without a right
//! neighbour is paired with itself. A tree with `depth` combining levels has
//! room for `2^depth` leaves, and its root is the single hash of level
//! `depth`.
use vstd::arithmetic::div_mod::lemma_div_denominator;
use vstd::prelude::*;

use crate::{HashOf, MerkleHasher, WitnessNode};

verus! {

/// `x` shifted right by `l` bits.
pub open spec fn shr(x: int, l: nat) -> int
    decreases l,
{
    if l == 0 {
        x
    } else {
        shr(x, (l - 1) as nat) / 2
    }
}

/// The number of bits of `x`: how often `x` is halved before it is zero.
pub open spec fn bits(x: int) -> nat
    decreases x,
{
    if x <= 0 {
        0
    } else {
        1 + bits(x / 2)
    }
}

/// The number of levels of the smallest tree that holds `n` leaves, root
/// level included: 0, 1, and `floor(log2(n - 1)) + 2` from two leaves on.
pub open spec fn depth_at_leaf_count(n: int) -> nat {
    if n <= 0 {
        0
    } else {
        bits(n - 1) + 1
    }
}

/// Two to the power `e`.
pub open spec fn two_pow(e: nat) -> nat
    decreases e,
{
    if e == 0 {
        1
    } else {
        2 * two_pow((e - 1) as nat)
    }
}

/// A tree with `depth` combining levels holds at most `2^depth` leaves.
pub open spec fn capacity(depth: nat) -> nat {
    two_pow(depth)
}

/// The hash of the parent of positions `2j` and `2j + 1` of `s`.
pub open spec fn pair_at<H: MerkleHasher>(h: H, s: Seq<HashOf<H>>, d: int, j: int) -> HashOf<H> {
    h.spec_combine(d, s[2 * j], if 2 * j + 1 < s.len() { s[2 * j + 1] } else { s[2 * j] })
}

/// One level up: neighbours combined at depth `d`, the last hash of an odd
/// count with itself.
pub open spec fn pair_up<H: MerkleHasher>(h: H, s: Seq<HashOf<H>>, d: int) -> Seq<HashOf<H>> {
    Seq::new(((s.len() + 1) / 2) as nat, |j: int| pair_at(h, s, d, j))
}

/// The hashes at level `l` of the tree whose leaf hashes are `hs`.
pub open spec fn level<H: MerkleHasher>(h: H, hs: Seq<HashOf<H>>, l: nat) -> Seq<HashOf<H>>
    decreases l,
{
    if l == 0 {
        hs
    } else {
        pair_up(h, level(h, hs, (l - 1) as nat), l - 1)
    }
}

/// The root of a tree with `depth` combining levels and leaf hashes `hs`.
pub open spec fn root_of<H: MerkleHasher>(h: H, hs: Seq<HashOf<H>>, depth: nat) -> HashOf<H> {
    level(h, hs, depth)[0]
}

/// The entry at level `l` of the authentication path of leaf `pos`: the
/// sibling's hash, and on which side the path runs.
pub open spec fn path_entry<H: MerkleHasher>(h: H, hs: Seq<HashOf<H>>, l: nat, pos: int) -> WitnessNode<
    HashOf<H>,
> {
    let s = level(h, hs, l);
    let j = shr(pos, l);
    if j % 2 == 1 {
        WitnessNode::Right(s[j - 1])
    } else if j + 1 < s.len() {
        WitnessNode::Left(s[j + 1])
    } else {
        WitnessNode::Left(s[j])
    }
}

/// The authentication path of leaf `pos`, from the leaf's sibling up to a
/// child of the root.
pub open spec fn auth_path<H: MerkleHasher>(h: H, hs: Seq<HashOf<H>>, depth: nat, pos: int) -> Seq<
    WitnessNode<HashOf<H>>,
> {
    Seq::new(depth, |l: int| path_entry(h, hs, l as nat, pos))
}

/// The hash reached from `leaf` after the first `i` entries of `path`.
pub open spec fn fold_path<H: MerkleHasher>(
    h: H,
    leaf: HashOf<H>,
    path: Seq<WitnessNode<HashOf<H>>>,
    i: nat,
) -> HashOf<H>
    decreases i,
{
    if i == 0 {
        leaf
    } else {
        let cur = fold_path(h, leaf, path, (i - 1) as nat);
        match path[i - 1] {
            WitnessNode::Left(right) => h.spec_combine(i - 1, cur, right),
            WitnessNode::Right(left) => h.spec_combine(i - 1, left, cur),
        }
    }
}

pub proof fn lemma_shr_nonneg(x: int, l: nat)
    requires
        0 <= x,
    ensures
        0 <= shr(x, l) <= x,
    decreases l,
{
    if l > 0 {
        lemma_shr_nonneg(x, (l - 1) as nat);
    }
}

pub proof fn lemma_bits_le(x: int)
    requires
        0 <= x,
    ensures
        bits(x) <= x,
    decreases x,
{
    if x > 0 {
        lemma_bits_le(x / 2);
    }
}

/// Shifting by `l + 1` is halving, then shifting by `l`.
pub proof fn lemma_shr_half(x: int, l: nat)
    requires
        0 <= x,
    ensures
        shr(x, l + 1) == shr(x / 2, l),
    decreases l,
{
    if l > 0 {
        let lp = (l - 1) as nat;
        lemma_shr_half(x, lp);
        assert(shr(x, l) == shr(x / 2, lp));
        assert(shr(x, l + 1) == shr(x, l) / 2);
        assert(shr(x / 2, l) == shr(x / 2, lp) / 2);
    } else {
        assert(shr(x, 1) == shr(x, 0) / 2);
    }
}

pub proof fn lemma_shr_mono(x: int, y: int, l: nat)
    requires
        0 <= x <= y,
    ensures
        shr(x, l) <= shr(y, l),
    decreases l,
{
    if l > 0 {
        lemma_shr_mono(x, y, (l - 1) as nat);
    }
}

/// One more leaf moves a position by at most one.
pub proof fn lemma_shr_succ(x: int, l: nat)
    requires
        0 <= x,
    ensures
        shr(x, l) <= shr(x + 1, l) <= shr(x, l) + 1,
    decreases l,
{
    if l > 0 {
        lemma_shr_succ(x, (l - 1) as nat);
    }
}

/// `shr(x, l)` is zero exactly from `bits(x)` levels on.
pub proof fn lemma_shr_bits(x: int, l: nat)
    requires
        0 <= x,
    ensures
        shr(x, l) == 0 <==> l >= bits(x),
    decreases x, l,
{
    lemma_shr_nonneg(x, l);
    if x > 0 && l > 0 {
        let lp = (l - 1) as nat;
        lemma_shr_half(x, lp);
        assert(shr(x, lp + 1) == shr(x, l));
        lemma_shr_bits(x / 2, lp);
    }
}

/// Shifting is division by a power of two.
pub proof fn lemma_shr_two_pow(x: int, l: nat)
    requires
        0 <= x,
    ensures
        shr(x, l) == x / (two_pow(l) as int),
        two_pow(l) > 0,
    decreases l,
{
    if l > 0 {
        let lp = (l - 1) as nat;
        lemma_shr_two_pow(x, lp);
        lemma_div_denominator(x, two_pow(lp) as int, 2);
        assert(two_pow(lp) * 2 == two_pow(l));
    } else {
        assert(x / 1 == x);
    }
}

/// Whether `x` is a power of two.
pub open spec fn is_two_pow(x: int) -> bool
    decreases x,
{
    if x <= 0 {
        false
    } else if x == 1 {
        true
    } else {
        x % 2 == 0 && is_two_pow(x / 2)
    }
}

/// `x >= 1` lies between the powers of two `2^(bits(x) - 1)` and
/// `2^bits(x)`.
pub proof fn lemma_bits_bounds(x: int)
    requires
        1 <= x,
    ensures
        bits(x) >= 1,
        two_pow((bits(x) - 1) as nat) <= x < two_pow(bits(x)),
    decreases x,
{
    if x >= 2 {
        lemma_bits_bounds(x / 2);
        let b = bits(x / 2);
        assert(bits(x) == b + 1);
        assert(two_pow(b + 1) == 2 * two_pow(b));
        assert(two_pow(b) == 2 * two_pow((b - 1) as nat));
    } else {
        assert(bits(x) == 1 + bits(0));
        assert(two_pow(1) == 2 * two_pow(0));
    }
}

/// `bits(x)` is the one `b` with `2^(b - 1) <= x < 2^b`.
pub proof fn lemma_bits_unique(x: int, b: nat)
    requires
        1 <= b,
        two_pow((b - 1) as nat) <= x < two_pow(b),
    ensures
        bits(x) == b,
    decreases b,
{
    if b > 1 {
        lemma_bits_unique(x / 2, (b - 1) as nat);
    } else {
        assert(x == 1);
        assert(bits(0) == 0);
    }
}

/// A power of two is `2^e` for some `e`.
pub proof fn lemma_is_two_pow(x: int)
    requires
        1 <= x,
    ensures
        is_two_pow(x) <==> x == two_pow((bits(x) - 1) as nat),
    decreases x,
{
    lemma_bits_bounds(x);
    if x >= 2 {
        lemma_is_two_pow(x / 2);
        lemma_bits_bounds(x / 2);
    }
}

/// Below capacity exactly when the position shifted by the depth is zero.
pub proof fn lemma_capacity(n: int, depth: nat)
    requires
        0 <= n,
    ensures
        n < capacity(depth) <==> shr(n, depth) == 0,
{
    lemma_shr_two_pow(n, depth);
    let p = two_pow(depth) as int;
    if n < p {
        assert(n / p == 0) by (nonlinear_arith)
            requires
                0 <= n < p,
        ;
    } else {
        assert(n / p >= 1) by (nonlinear_arith)
            requires
                0 < p <= n,
        ;
    }
}

/// A tree below capacity has at most `depth` levels above its leaves.
pub proof fn lemma_bits_within(n: int, depth: nat)
    requires
        1 <= n <= capacity(depth),
    ensures
        bits(n - 1) <= depth,
{
    lemma_capacity(n - 1, depth);
    lemma_shr_bits(n - 1, depth);
}

/// Level `l` of `n >= 1` leaves holds `shr(n - 1, l) + 1` hashes.
pub proof fn lemma_level_len<H: MerkleHasher>(h: H, hs: Seq<HashOf<H>>, l: nat)
    requires
        hs.len() >= 1,
    ensures
        level(h, hs, l).len() == shr(hs.len() - 1, l) + 1,
    decreases l,
{
    if l > 0 {
        lemma_level_len(h, hs, (l - 1) as nat);
        lemma_shr_nonneg(hs.len() - 1, (l - 1) as nat);
    }
}

/// Subtrees whose leaves all lie in a common prefix have equal hashes.
pub proof fn lemma_level_prefix<H: MerkleHasher>(
    h: H,
    hs1: Seq<HashOf<H>>,
    hs2: Seq<HashOf<H>>,
    k: int,
    l: nat,
    j: int,
)
    requires
        0 <= k <= hs1.len(),
        k <= hs2.len(),
        hs1.subrange(0, k) == hs2.subrange(0, k),
        0 <= j < shr(k, l),
    ensures
        j < level(h, hs1, l).len(),
        j < level(h, hs2, l).len(),
        level(h, hs1, l)[j] == level(h, hs2, l)[j],
    decreases l,
{
    lemma_shr_nonneg(k, l);
    lemma_level_len(h, hs1, l);
    lemma_level_len(h, hs2, l);
    lemma_shr_succ(k - 1, l);
    lemma_shr_mono(k - 1, hs1.len() - 1, l);
    lemma_shr_mono(k - 1, hs2.len() - 1, l);
    if l == 0 {
        assert(hs1[j] == hs1.subrange(0, k)[j]);
        assert(hs2[j] == hs2.subrange(0, k)[j]);
    } else {
        let lp = (l - 1) as nat;
        lemma_shr_nonneg(k, lp);
        lemma_level_prefix(h, hs1, hs2, k, lp, 2 * j);
        lemma_level_prefix(h, hs1, hs2, k, lp, 2 * j + 1);
    }
}

/// Following the authentication path of leaf `pos` for `l` levels gives
/// the hash of its ancestor at level `l`.
pub proof fn lemma_fold_auth_path<H: MerkleHasher>(
    h: H,
    hs: Seq<HashOf<H>>,
    depth: nat,
    pos: int,
    l: nat,
)
    requires
        0 <= pos < hs.len(),
        l <= depth,
    ensures
        0 <= shr(pos, l) < level(h, hs, l).len(),
        fold_path(h, hs[pos], auth_path(h, hs, depth, pos), l) == level(h, hs, l)[shr(pos, l)],
    decreases l,
{
    lemma_level_len(h, hs, l);
    lemma_shr_mono(pos, hs.len() - 1, l);
    lemma_shr_nonneg(pos, l);
    if l > 0 {
        let lp = (l - 1) as nat;
        lemma_fold_auth_path(h, hs, depth, pos, lp);
        lemma_level_len(h, hs, lp);
        lemma_shr_mono(pos, hs.len() - 1, lp);
        lemma_shr_nonneg(pos, lp);
        let s = level(h, hs, lp);
        let j = shr(pos, lp);
        assert(auth_path(h, hs, depth, pos)[lp as int] == path_entry(h, hs, lp, pos));
        assert(level(h, hs, l)[j / 2] == pair_at(h, s, lp as int, j / 2));
    }
}

} // verus!
