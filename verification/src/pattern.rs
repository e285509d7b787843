//! Sign patterns: one bit per hyperplane, held in a `bit_vec::BitVec`.
//!
//! The bit vector comes from the `bit_vec` crate. Verus does not look inside
//! it: `bits` names what a vector holds, and the functions of the first half
//! of this file say, without proof, what the crate's methods do to it.

use crate::binary32::positive;
use bit_vec::BitVec;
use vstd::prelude::*;

verus! {

/// `bit_vec::BitVec`, taken as it is: a value to build, to hand on and to
/// ask through the functions below.
#[verifier::external_type_specification]
#[verifier::external_body]
#[verifier::reject_recursive_types(B)]
pub struct ExBitVec<B>(bit_vec::BitVec<B>);

/// The bits that a `BitVec` holds, in the order of their indices.
pub uninterp spec fn bits(v: &BitVec) -> Seq<bool>;

/// `BitVec::with_capacity`: a vector that holds no bits, whatever room it
/// was given.
#[verifier::external_body]
pub(crate) fn empty_key(nbits: usize) -> (v: BitVec)
    ensures
        bits(&v) == Seq::<bool>::empty(),
{
    BitVec::with_capacity(nbits)
}

/// `BitVec::push`: the bit is appended behind those already held. The
/// method panics when the length would overflow, which `requires` rules out.
#[verifier::external_body]
pub(crate) fn push_bit(v: &mut BitVec, bit: bool)
    requires
        bits(old(v)).len() < usize::MAX,
    ensures
        bits(final(v)) == bits(old(v)).push(bit),
{
    v.push(bit)
}

/// `BitVec::len`: the number of bits held.
#[verifier::external_body]
pub(crate) fn key_len(v: &BitVec) -> (n: usize)
    ensures
        n == bits(v).len(),
{
    v.len()
}

/// Indexing a `BitVec`: the bit at `i`. It panics beyond the end, which
/// `requires` rules out.
#[verifier::external_body]
pub(crate) fn bit_at(v: &BitVec, i: usize) -> (b: bool)
    requires
        i < bits(v).len(),
    ensures
        b == bits(v)[i as int],
{
    v[i]
}

/// `BitVec::set`: the bit at `i` becomes `x`, the others stay. It panics
/// beyond the end, which `requires` rules out.
#[verifier::external_body]
pub(crate) fn set_bit(v: &mut BitVec, i: usize, x: bool)
    requires
        i < bits(old(v)).len(),
    ensures
        bits(final(v)) == bits(old(v)).update(i as int, x),
{
    v.set(i, x)
}

/// `BitVec::clone`: a vector that holds the same bits.
#[verifier::external_body]
pub(crate) fn copy_key(v: &BitVec) -> (w: BitVec)
    ensures
        bits(&w) == bits(v),
{
    v.clone()
}

/// `==` on `BitVec`: whether both hold the same bits, lengths included.
#[verifier::external_body]
pub(crate) fn same_key(a: &BitVec, b: &BitVec) -> (r: bool)
    ensures
        r == (bits(a) == bits(b)),
{
    a == b
}

/// The side of each hyperplane that a vector lies on: bit `i` is set when
/// projection `i` is greater than zero.
pub open spec fn signs(projections: Seq<u32>) -> Seq<bool> {
    Seq::new(projections.len(), |i: int| positive(projections[i]))
}

/// The pattern with the bit at `i` inverted.
pub open spec fn flipped(pattern: Seq<bool>, i: int) -> Seq<bool> {
    pattern.update(i, !pattern[i])
}

/// The patterns that a query looks under: the pattern itself, then each
/// pattern that differs from it in exactly one bit, lowest bit first.
pub open spec fn probes(pattern: Seq<bool>) -> Seq<Seq<bool>> {
    Seq::new(
        pattern.len() + 1,
        |j: int|
            if j == 0 {
                pattern
            } else {
                flipped(pattern, j - 1)
            },
    )
}

/// What a vector of bit vectors holds.
pub open spec fn all_bits(keys: Seq<BitVec>) -> Seq<Seq<bool>> {
    Seq::new(keys.len(), |j: int| bits(&keys[j]))
}

/// Whether the two patterns are of one length and differ in exactly one
/// bit.
pub open spec fn one_apart(a: Seq<bool>, b: Seq<bool>) -> bool {
    &&& a.len() == b.len()
    &&& exists|i: int|
        0 <= i < a.len() && #[trigger] a[i] != b[i] && forall|j: int|
            0 <= j < a.len() && j != i ==> #[trigger] a[j] == b[j]
}

/// A query looks under its own pattern and under every pattern one bit
/// apart from it, and nowhere else.
pub proof fn lemma_probes(pattern: Seq<bool>, other: Seq<bool>)
    ensures
        probes(pattern).len() == pattern.len() + 1,
        probes(pattern).contains(other) <==> other == pattern || one_apart(pattern, other),
{
    let all = probes(pattern);
    if all.contains(other) {
        let j = choose|j: int| 0 <= j < all.len() && all[j] == other;
        if j > 0 {
            assert(pattern[j - 1] != other[j - 1]);
        }
    }
    if other == pattern {
        assert(all[0] == other);
    }
    if one_apart(pattern, other) {
        let i = choose|i: int|
            0 <= i < pattern.len() && #[trigger] pattern[i] != other[i] && forall|j: int|
                0 <= j < pattern.len() && j != i ==> #[trigger] pattern[j] == other[j];
        assert(flipped(pattern, i) =~= other);
        assert(all[i + 1] == other);
    }
}

} // verus!
