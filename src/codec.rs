//! The header of the serialized form of a tree: the depth as one byte, then
//! the leaf count as a little-endian `u32`.
use vstd::prelude::*;

use vstd::arithmetic::div_mod::{lemma_div_denominator, lemma_fundamental_div_mod_converse};

use crate::HashableElement;

verus! {

/// Why bytes could not be read as a tree, or a tree not written.
#[derive(Clone, Copy, Debug, PartialEq, Eq)]
pub enum CodecError {
    /// The bytes end early or do not hold an element where one belongs.
    Malformed,
    /// The depth byte names a tree too shallow to hold a leaf.
    BadDepth,
    /// More leaves than the tree has room for.
    TooManyLeaves,
    /// The depth or the leaf count does not fit the format.
    TooLarge,
}

/// The encodings of `es`, one after the other.
pub open spec fn encode_all<E: HashableElement>(es: Seq<E>) -> Seq<u8>
    decreases es.len(),
{
    if es.len() == 0 {
        Seq::empty()
    } else {
        encode_all(es.drop_last()) + es.last().spec_encoding()
    }
}

/// The serialized form of a tree: the depth byte, the leaf count as a
/// little-endian `u32`, then the elements.
pub open spec fn tree_bytes<E: HashableElement>(depth: u8, es: Seq<E>) -> Seq<u8> {
    seq![depth] + le_bytes(es.len() as u32) + encode_all(es)
}

/// The little-endian bytes of `v`.
pub open spec fn le_bytes(v: u32) -> Seq<u8> {
    seq![
        (v % 256) as u8,
        ((v / 256) % 256) as u8,
        ((v / 65536) % 256) as u8,
        (v / 16777216) as u8,
    ]
}

/// The value of four little-endian bytes.
pub open spec fn le_value(b: Seq<u8>) -> int {
    b[0] + 256 * b[1] + 65536 * b[2] + 16777216 * b[3]
}

/// Append the little-endian bytes of `v`.
pub fn write_u32_le(out: &mut Vec<u8>, v: u32)
    ensures
        final(out)@ == old(out)@ + le_bytes(v),
{
    out.push((v % 256) as u8);
    out.push(((v / 256) % 256) as u8);
    out.push(((v / 65536) % 256) as u8);
    out.push((v / 16777216) as u8);
    assert(final(out)@ =~= old(out)@ + le_bytes(v));
}

/// Read a little-endian `u32` at `start`, if four bytes are there.
pub fn read_u32_le(bytes: &[u8], start: usize) -> (r: Option<u32>)
    ensures
        r is Some <==> start + 4 <= bytes@.len(),
        r matches Some(v) ==> v == le_value(bytes@.subrange(start as int, start + 4)),
{
    if bytes.len() < 4 || start > bytes.len() - 4 {
        return None;
    }
    let b0 = bytes[start] as u32;
    let b1 = bytes[start + 1] as u32;
    let b2 = bytes[start + 2] as u32;
    let b3 = bytes[start + 3] as u32;
    let v = b0 + 256 * b1 + 65536 * b2 + 16777216 * b3;
    assert(bytes@.subrange(start as int, start + 4)[1] == b1);
    Some(v)
}

/// The encodings of the first `i + 1` elements are those of the first `i`,
/// then that of element `i`.
pub proof fn lemma_encode_step<E: HashableElement>(es: Seq<E>, i: int)
    requires
        0 <= i < es.len(),
    ensures
        encode_all(es.subrange(0, i + 1)) == encode_all(es.subrange(0, i)) + es[i].spec_encoding(),
{
    let p = es.subrange(0, i + 1);
    assert(p.drop_last() =~= es.subrange(0, i));
}

/// The encodings of a prefix are a prefix of the encodings.
pub proof fn lemma_encode_prefix<E: HashableElement>(es: Seq<E>, i: int)
    requires
        0 <= i <= es.len(),
    ensures
        encode_all(es).subrange(0, encode_all(es.subrange(0, i)).len() as int) == encode_all(
            es.subrange(0, i),
        ),
        encode_all(es.subrange(0, i)).len() <= encode_all(es).len(),
    decreases es.len() - i,
{
    if i < es.len() {
        lemma_encode_prefix(es, i + 1);
        lemma_encode_step(es, i);
        let a = encode_all(es.subrange(0, i));
        let b = encode_all(es.subrange(0, i + 1));
        let c = encode_all(es);
        assert(c.subrange(0, a.len() as int) =~= b.subrange(0, a.len() as int));
    } else {
        assert(es.subrange(0, i) =~= es);
    }
}

/// Four bytes are the little-endian bytes of the value they hold.
pub proof fn lemma_le_bytes_of_value(b: Seq<u8>)
    requires
        b.len() == 4,
    ensures
        0 <= le_value(b) <= u32::MAX,
        le_bytes(le_value(b) as u32) == b,
{
    let v = le_value(b);
    let q2 = b[2] + 256 * b[3];
    let q1 = b[1] + 256 * q2;
    assert(v == q1 * 256 + b[0]);
    assert(q1 == q2 * 256 + b[1]);
    assert(q2 == b[3] * 256 + b[2]);
    lemma_fundamental_div_mod_converse(v, 256, q1, b[0] as int);
    lemma_fundamental_div_mod_converse(q1, 256, q2, b[1] as int);
    lemma_fundamental_div_mod_converse(q2, 256, b[3] as int, b[2] as int);
    lemma_div_denominator(v, 256, 256);
    lemma_div_denominator(v, 65536, 256);
    assert(v / 16777216 == b[3]);
    assert(le_bytes(v as u32) =~= b);
}

/// Reading back what was written gives the value written.
pub proof fn lemma_le_round_trip(v: u32)
    ensures
        le_value(le_bytes(v)) == v,
{
    let b = le_bytes(v);
    assert(b[0] == v % 256);
    assert(b[1] == (v / 256) % 256);
    assert(b[2] == (v / 65536) % 256);
    assert(b[3] == v / 16777216);
    assert(v == v % 256 + 256 * ((v / 256) % 256) + 65536 * ((v / 65536) % 256) + 16777216 * (v
        / 16777216)) by (nonlinear_arith);
}

} // verus!
