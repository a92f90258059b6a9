//! Approximate set membership structures: a Bloom filter, a counting Bloom
//! filter that supports removal and multiplicity estimates, and the
//! bit-packed value store that backs the counting variant.
//!
//! Items are presented as byte strings.  Each filter owns two independently
//! seeded hash functions; the probe positions for an item are derived from
//! the two base hashes by double hashing (Kirsch-Mitzenmacher).

use vstd::prelude::*;

pub mod bitvec;
pub mod bloom;
pub mod counting;
pub mod djb2;
pub mod hashing;
pub mod valuevec;

pub use bloom::BloomFilter;
pub use counting::CountingBloomFilter;
pub use valuevec::ValueVec;

verus! {

/// Standard filter operations of an approximate set membership structure.
///
/// `contains` answers exactly the spec-level `may_contain` question: it is
/// `true` whenever every slot probed for the item is occupied, so an item
/// that has been inserted and not removed is never reported absent, while an
/// item that was never inserted may still be reported present.
pub trait ASMS: Sized {
    /// The structure is well formed.
    spec fn valid(&self) -> bool;

    /// The structure cannot rule the item out: every probed slot is occupied.
    spec fn may_contain(&self, item: Seq<u8>) -> bool;

    /// Exact relation between the state before an insert (`pre`), the state
    /// after (`self`), the inserted item, and the returned flag.
    spec fn insert_rel(&self, pre: Self, item: Seq<u8>, flag: bool) -> bool;

    /// Exact relation between the state before a clear (`pre`) and the state
    /// after (`self`).
    spec fn clear_rel(&self, pre: Self) -> bool;

    /// Insert an item.  Afterwards the item can no longer be ruled out, and
    /// nothing that was previously reported present becomes absent.
    fn insert(&mut self, item: &[u8]) -> (flag: bool)
        requires
            old(self).valid(),
        ensures
            final(self).valid(),
            final(self).may_contain(item@),
            forall|other: Seq<u8>|
                old(self).may_contain(other) ==> final(self).may_contain(other),
            final(self).insert_rel(*old(self), item@, flag),
    ;

    /// Report whether the item may have been inserted.  `false` is definite;
    /// `true` may be a false positive.
    fn contains(&self, item: &[u8]) -> (present: bool)
        requires
            self.valid(),
        ensures
            present == self.may_contain(item@),
    ;

    /// Remove every item, keeping the dimensions of the structure.
    fn clear(&mut self)
        requires
            old(self).valid(),
        ensures
            final(self).valid(),
            final(self).clear_rel(*old(self)),
    ;
}

/// Filters that can be intersected in place with another filter of the same
/// dimensions, keeping only items present in both.  Both filters must use
/// the same hash configuration for the result to be meaningful; only the
/// sizes can be, and are, required.
pub trait Intersectable: Sized {
    /// Both structures are well formed and sized so that they can be combined.
    spec fn can_intersect(&self, other: &Self) -> bool;

    /// Exact relation between the state before the intersection (`pre`), the
    /// other operand, the state after (`self`), and the returned change flag.
    spec fn intersect_rel(&self, pre: Self, other: &Self, changed: bool) -> bool;

    fn intersect(&mut self, other: &Self) -> (changed: bool)
        requires
            old(self).can_intersect(other),
        ensures
            final(self).intersect_rel(*old(self), other, changed),
    ;
}

/// Filters that can be unioned in place with another filter of the same
/// dimensions, keeping items present in either.  Both filters must use the
/// same hash configuration for the result to be meaningful; only the sizes
/// can be, and are, required.
pub trait Unionable: Sized {
    /// Both structures are well formed and sized so that they can be combined.
    spec fn can_union(&self, other: &Self) -> bool;

    /// Exact relation between the state before the union (`pre`), the other
    /// operand, the state after (`self`), and the returned change flag.
    spec fn union_rel(&self, pre: Self, other: &Self, changed: bool) -> bool;

    fn union(&mut self, other: &Self) -> (changed: bool)
        requires
            old(self).can_union(other),
        ensures
            final(self).union_rel(*old(self), other, changed),
    ;
}

/// Filters that are Combineable can be unioned and intersected.
pub trait Combineable: Intersectable + Unionable {

}

impl<T: Intersectable + Unionable> Combineable for T {

}

} // verus!
