//! A verified interface to the bit-vec crate's `BitVec`, the bit array that
//! backs the Bloom filter.  The contents of a `BitVec` are modeled as a
//! sequence of booleans; each method the filter uses is wrapped with the
//! contract that the crate's documentation and source give it.

use bit_vec::BitVec;
use vstd::prelude::*;

verus! {

#[verifier::external_type_specification]
#[verifier::external_body]
#[verifier::reject_recursive_types(B)]
pub struct ExBitVec<B>(BitVec<B>);

/// The bits held by a `BitVec`, in order.
pub uninterp spec fn bits_of(v: &BitVec) -> Seq<bool>;

/// Pointwise conjunction of two bit sequences of the same length.
pub open spec fn seq_and(a: Seq<bool>, b: Seq<bool>) -> Seq<bool> {
    Seq::new(a.len(), |t: int| a[t] && b[t])
}

/// Pointwise disjunction of two bit sequences of the same length.
pub open spec fn seq_or(a: Seq<bool>, b: Seq<bool>) -> Seq<bool> {
    Seq::new(a.len(), |t: int| a[t] || b[t])
}

/// Relies on bit_vec::BitVec::from_elem: a vector of `len` bits, each set to
/// `bit`.
#[verifier::external_body]
pub(crate) fn bv_from_elem(len: usize, bit: bool) -> (r: BitVec)
    ensures
        bits_of(&r) == Seq::new(len as nat, |t: int| bit),
{
    BitVec::from_elem(len, bit)
}

/// Relies on bit_vec::BitVec::len: the total number of bits in the vector.
#[verifier::external_body]
pub(crate) fn bv_len(v: &BitVec) -> (r: usize)
    ensures
        r == bits_of(v).len(),
{
    v.len()
}

/// Relies on bit_vec::BitVec::get: the bit at `i` when `i` is in bounds.
#[verifier::external_body]
pub(crate) fn bv_get(v: &BitVec, i: usize) -> (r: bool)
    requires
        i < bits_of(v).len(),
    ensures
        r == bits_of(v)[i as int],
{
    v.get(i).unwrap_or(false)
}

/// Relies on bit_vec::BitVec::set: replaces the bit at `i`; out of bounds it
/// panics, so `i` must be in bounds.
#[verifier::external_body]
pub(crate) fn bv_set(v: &mut BitVec, i: usize, x: bool)
    requires
        i < bits_of(&*old(v)).len(),
    ensures
        bits_of(&*final(v)) == bits_of(&*old(v)).update(i as int, x),
{
    v.set(i, x);
}

/// Relies on bit_vec::BitVec::fill: assigns every bit the given value and
/// keeps the length.
#[verifier::external_body]
pub(crate) fn bv_fill(v: &mut BitVec, bit: bool)
    ensures
        bits_of(&*final(v)) == Seq::new(bits_of(&*old(v)).len(), |t: int| bit),
{
    v.fill(bit);
}

/// Relies on bit_vec::BitVec::and: sets `v` to the pointwise conjunction of
/// the two vectors and reports whether `v` changed; vectors of different
/// lengths panic, so the lengths must agree.
#[verifier::external_body]
pub(crate) fn bv_and(v: &mut BitVec, other: &BitVec) -> (changed: bool)
    requires
        bits_of(&*old(v)).len() == bits_of(other).len(),
    ensures
        bits_of(&*final(v)) == seq_and(bits_of(&*old(v)), bits_of(other)),
        changed == (bits_of(&*final(v)) != bits_of(&*old(v))),
{
    v.and(other)
}

/// Relies on bit_vec::BitVec::or: sets `v` to the pointwise disjunction of
/// the two vectors and reports whether `v` changed; vectors of different
/// lengths panic, so the lengths must agree.
#[verifier::external_body]
pub(crate) fn bv_or(v: &mut BitVec, other: &BitVec) -> (changed: bool)
    requires
        bits_of(&*old(v)).len() == bits_of(other).len(),
    ensures
        bits_of(&*final(v)) == seq_or(bits_of(&*old(v)), bits_of(other)),
        changed == (bits_of(&*final(v)) != bits_of(&*old(v))),
{
    v.or(other)
}

} // verus!
