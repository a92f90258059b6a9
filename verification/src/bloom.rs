//! A standard Bloom filter.  If an item is inserted then `contains` is
//! guaranteed to return `true` for that item.  For items not inserted,
//! `contains` will probably return `false`, and the chance that it returns
//! `true` instead is the false positive rate of the filter.

use bit_vec::BitVec;
use vstd::prelude::*;

verus! {

use crate::ASMS;
use crate::Intersectable;
use crate::Unionable;
use crate::bitvec::bits_of;
use crate::bitvec::bv_and;
use crate::bitvec::bv_fill;
use crate::bitvec::bv_from_elem;
use crate::bitvec::bv_get;
use crate::bitvec::bv_len;
use crate::bitvec::bv_or;
use crate::bitvec::bv_set;
use crate::bitvec::seq_and;
use crate::bitvec::seq_or;
use crate::hashing::HashIter;
use crate::hashing::SeededHasher;
use crate::hashing::probe_value;
use crate::hashing::seeded_hash;

/// A Bloom filter: a bit array together with a probe count and two seeded
/// hash functions.  Bit `probe_index(item, j)` is set for each probe round
/// `j` when `item` is inserted.
pub struct BloomFilter {
    bits: BitVec,
    num_hashes: u32,
    hasher_one: SeededHasher,
    hasher_two: SeededHasher,
}

impl BloomFilter {
    /// The bits of the filter, in order.
    pub closed spec fn bit_seq(&self) -> Seq<bool> {
        bits_of(&self.bits)
    }

    /// How many probes each operation makes.
    pub closed spec fn spec_num_hashes(&self) -> u32 {
        self.num_hashes
    }

    /// The seed of the first hash function.
    pub closed spec fn spec_hasher_one(&self) -> u64 {
        self.hasher_one@
    }

    /// The seed of the second hash function.
    pub closed spec fn spec_hasher_two(&self) -> u64 {
        self.hasher_two@
    }

    /// The filter is well formed: it has at least one bit, so that probe
    /// values can be reduced modulo the bit count.
    pub open spec fn wf(&self) -> bool {
        self.bit_seq().len() >= 1
    }

    /// The bit probed for `item` in probe round `j`: the `j`-th probe value,
    /// reduced modulo the number of bits.
    pub open spec fn probe_index(&self, item: Seq<u8>, j: int) -> int {
        probe_value(
            seeded_hash(self.spec_hasher_one(), item),
            seeded_hash(self.spec_hasher_two(), item),
            j,
        ) as int % self.bit_seq().len() as int
    }

    /// Some probe round of `item` lands on bit `t`.
    pub open spec fn probes_cover(&self, item: Seq<u8>, t: int) -> bool {
        exists|j: int|
            0 <= j < self.spec_num_hashes() && #[trigger] self.probe_index(item, j) == t
    }

    /// The two filters have the same dimensions and hash configuration, so
    /// they probe the same bits for every item.
    pub open spec fn same_config(&self, other: &Self) -> bool {
        &&& self.bit_seq().len() == other.bit_seq().len()
        &&& self.spec_num_hashes() == other.spec_num_hashes()
        &&& self.spec_hasher_one() == other.spec_hasher_one()
        &&& self.spec_hasher_two() == other.spec_hasher_two()
    }

    /// Create a new Bloom filter with the given number of bits and probes,
    /// and two freshly seeded hash functions.
    pub fn with_size(num_bits: usize, num_hashes: u32) -> (r: BloomFilter)
        requires
            num_bits >= 1,
        ensures
            r.wf(),
            r.bit_seq() == Seq::new(num_bits as nat, |t: int| false),
            r.spec_num_hashes() == num_hashes,
    {
        BloomFilter {
            bits: bv_from_elem(num_bits, false),
            num_hashes,
            hasher_one: SeededHasher::from_entropy(),
            hasher_two: SeededHasher::from_entropy(),
        }
    }

    /// Create a new Bloom filter with the given number of bits and probes
    /// and the two given hash functions.  The two hashers must provide
    /// independent hash values: correlated hashers silently break the false
    /// positive rate, though not the absence of false negatives.
    pub fn with_size_and_hashers(
        num_bits: usize,
        num_hashes: u32,
        hasher_one: SeededHasher,
        hasher_two: SeededHasher,
    ) -> (r: BloomFilter)
        requires
            num_bits >= 1,
        ensures
            r.wf(),
            r.bit_seq() == Seq::new(num_bits as nat, |t: int| false),
            r.spec_num_hashes() == num_hashes,
            r.spec_hasher_one() == hasher_one@,
            r.spec_hasher_two() == hasher_two@,
    {
        BloomFilter { bits: bv_from_elem(num_bits, false), num_hashes, hasher_one, hasher_two }
    }

    /// Get the number of bits this filter is using.
    pub fn num_bits(&self) -> (r: usize)
        ensures
            r == self.bit_seq().len(),
    {
        bv_len(&self.bits)
    }

    /// Get the number of hash probes this filter is using.
    pub fn num_hashes(&self) -> (r: u32)
        ensures
            r == self.spec_num_hashes(),
    {
        self.num_hashes
    }
}

impl ASMS for BloomFilter {
    open spec fn valid(&self) -> bool {
        self.wf()
    }

    /// Every probed bit of the item is set.
    open spec fn may_contain(&self, item: Seq<u8>) -> bool {
        forall|j: int|
            0 <= j < self.spec_num_hashes() ==> self.bit_seq()[#[trigger] self.probe_index(
                item,
                j,
            )]
    }

    /// Inserting sets exactly the probed bits; the flag reports whether any
    /// probed bit was still unset, that is whether the item was probably not
    /// yet present.
    open spec fn insert_rel(&self, pre: Self, item: Seq<u8>, flag: bool) -> bool {
        &&& self.bit_seq() == Seq::new(
            pre.bit_seq().len(),
            |t: int| pre.bit_seq()[t] || pre.probes_cover(item, t),
        )
        &&& flag == !pre.may_contain(item)
        &&& self.spec_num_hashes() == pre.spec_num_hashes()
        &&& self.spec_hasher_one() == pre.spec_hasher_one()
        &&& self.spec_hasher_two() == pre.spec_hasher_two()
    }

    /// Clearing resets every bit and keeps the configuration.
    open spec fn clear_rel(&self, pre: Self) -> bool {
        &&& self.bit_seq() == Seq::new(pre.bit_seq().len(), |t: int| false)
        &&& self.spec_num_hashes() == pre.spec_num_hashes()
        &&& self.spec_hasher_one() == pre.spec_hasher_one()
        &&& self.spec_hasher_two() == pre.spec_hasher_two()
    }

    /// Insert an item.  Returns `true` if at least one probed bit was still
    /// unset, that is if the filter did probably not yet contain the item.
    fn insert(&mut self, item: &[u8]) -> (flag: bool) {
        let nb: usize = bv_len(&self.bits);
        let k: u32 = self.num_hashes;
        let mut hashes = HashIter::from(item, k, &self.hasher_one, &self.hasher_two);
        let mut contained = true;
        let mut j: u32 = 0;
        while j < k
            invariant
                j <= k,
                nb >= 1,
                k == old(self).spec_num_hashes(),
                self.num_hashes == old(self).num_hashes,
                self.hasher_one == old(self).hasher_one,
                self.hasher_two == old(self).hasher_two,
                nb == old(self).bit_seq().len(),
                self.bit_seq().len() == nb,
                hashes.base_one() == seeded_hash(old(self).spec_hasher_one(), item@),
                hashes.base_two() == seeded_hash(old(self).spec_hasher_two(), item@),
                hashes.cursor() == j,
                hashes.total() == k,
                forall|t: int|
                    0 <= t < nb ==> self.bit_seq()[t] == (old(self).bit_seq()[t] || exists|jj: int|
                        0 <= jj < j && #[trigger] old(self).probe_index(item@, jj) == t),
                contained == (forall|jj: int|
                    0 <= jj < j ==> old(self).bit_seq()[#[trigger] old(self).probe_index(
                        item@,
                        jj,
                    )]),
            decreases k - j,
        {
            let h: u64 = match hashes.next() {
                Some(h) => h,
                None => {
                    proof {
                        assert(false);
                    }
                    0
                },
            };
            let idx: usize = (h % (nb as u64)) as usize;
            proof {
                assert(idx as int == old(self).probe_index(item@, j as int));
            }
            let ghost mid = self.bit_seq();
            let ghost was_contained = contained;
            let prev = bv_get(&self.bits, idx);
            if !prev {
                contained = false;
            }
            bv_set(&mut self.bits, idx, true);
            proof {
                assert forall|t: int| 0 <= t < nb implies self.bit_seq()[t] == (old(
                    self,
                ).bit_seq()[t] || exists|jj: int|
                    0 <= jj < j + 1 && #[trigger] old(self).probe_index(item@, jj) == t) by {
                    if t == idx as int {
                        assert(old(self).probe_index(item@, j as int) == t);
                        assert(self.bit_seq()[t]);
                    } else {
                        assert(self.bit_seq()[t] == mid[t]);
                        assert forall|jj: int|
                            0 <= jj < j + 1 && #[trigger] old(self).probe_index(item@, jj)
                                == t implies jj < j by {
                            if jj == j {
                                assert(old(self).probe_index(item@, jj) == idx as int);
                            }
                        }
                    }
                }
                // The flag stays exact: the first probe that touches a bit
                // reads its original value.
                if was_contained && prev && !old(self).bit_seq()[idx as int] {
                    let w = choose|jj: int|
                        0 <= jj < j && #[trigger] old(self).probe_index(item@, jj) == idx as int;
                    assert(old(self).bit_seq()[old(self).probe_index(item@, w)]);
                }
                assert(contained == (forall|jj: int|
                    0 <= jj < j + 1 ==> old(self).bit_seq()[#[trigger] old(self).probe_index(
                        item@,
                        jj,
                    )])) by {
                    if was_contained && prev {
                        assert(old(self).bit_seq()[idx as int]);
                        assert forall|jj: int| 0 <= jj < j + 1 implies old(self).bit_seq()[
                        #[trigger] old(self).probe_index(item@, jj)] by {
                            if jj == j {
                                assert(old(self).probe_index(item@, jj) == idx as int);
                            }
                        }
                    } else if was_contained && !prev {
                        assert(!mid[idx as int]);
                        assert(!old(self).bit_seq()[old(self).probe_index(item@, j as int)]);
                    }
                }
            }
            j = j + 1;
        }
        proof {
            assert(self.bit_seq() =~= Seq::new(
                old(self).bit_seq().len(),
                |t: int| old(self).bit_seq()[t] || old(self).probes_cover(item@, t),
            ));
            assert(contained == old(self).may_contain(item@));
            // The item can no longer be ruled out.
            assert forall|jj: int| 0 <= jj < self.spec_num_hashes() implies self.bit_seq()[
            #[trigger] self.probe_index(item@, jj)] by {
                assert(self.probe_index(item@, jj) == old(self).probe_index(item@, jj));
                assert(old(self).probes_cover(item@, self.probe_index(item@, jj)));
            }
            // Nothing previously reported present becomes absent.
            assert forall|other: Seq<u8>| old(self).may_contain(other) implies self.may_contain(
                other,
            ) by {
                assert forall|jj: int| 0 <= jj < self.spec_num_hashes() implies self.bit_seq()[
                #[trigger] self.probe_index(other, jj)] by {
                    assert(self.probe_index(other, jj) == old(self).probe_index(other, jj));
                    assert(old(self).bit_seq()[old(self).probe_index(other, jj)]);
                }
            }
        }
        !contained
    }

    /// Check if the item has been inserted into this filter.  This function
    /// can return false positives, but never false negatives.
    fn contains(&self, item: &[u8]) -> (present: bool) {
        let nb: usize = bv_len(&self.bits);
        let k: u32 = self.num_hashes;
        let mut hashes = HashIter::from(item, k, &self.hasher_one, &self.hasher_two);
        let mut j: u32 = 0;
        while j < k
            invariant
                j <= k,
                nb >= 1,
                nb == self.bit_seq().len(),
                k == self.spec_num_hashes(),
                hashes.base_one() == seeded_hash(self.spec_hasher_one(), item@),
                hashes.base_two() == seeded_hash(self.spec_hasher_two(), item@),
                hashes.cursor() == j,
                hashes.total() == k,
                forall|jj: int|
                    0 <= jj < j ==> self.bit_seq()[#[trigger] self.probe_index(item@, jj)],
            decreases k - j,
        {
            let h: u64 = match hashes.next() {
                Some(h) => h,
                None => {
                    proof {
                        assert(false);
                    }
                    0
                },
            };
            let idx: usize = (h % (nb as u64)) as usize;
            proof {
                assert(idx as int == self.probe_index(item@, j as int));
            }
            if !bv_get(&self.bits, idx) {
                return false;
            }
            j = j + 1;
        }
        true
    }

    /// Remove all values from this filter, keeping its dimensions.
    fn clear(&mut self) {
        bv_fill(&mut self.bits, false);
    }
}

impl Intersectable for BloomFilter {
    /// Both filters are well formed and use the same number of bits.
    open spec fn can_intersect(&self, other: &Self) -> bool {
        self.wf() && other.wf() && self.bit_seq().len() == other.bit_seq().len()
    }

    /// Intersection conjoins the bit arrays pointwise, keeps the
    /// configuration, and reports whether any bit changed.
    open spec fn intersect_rel(&self, pre: Self, other: &Self, changed: bool) -> bool {
        &&& self.bit_seq() == seq_and(pre.bit_seq(), other.bit_seq())
        &&& changed == (self.bit_seq() != pre.bit_seq())
        &&& self.spec_num_hashes() == pre.spec_num_hashes()
        &&& self.spec_hasher_one() == pre.spec_hasher_one()
        &&& self.spec_hasher_two() == pre.spec_hasher_two()
    }

    /// Calculates the intersection of two filters.  Only items inserted
    /// into both filters will still be present in `self`.  Both filters
    /// must use the same number of bits.  Returns `true` if `self` changed.
    fn intersect(&mut self, other: &Self) -> (changed: bool) {
        bv_and(&mut self.bits, &other.bits)
    }
}

impl Unionable for BloomFilter {
    /// Both filters are well formed and use the same number of bits.
    open spec fn can_union(&self, other: &Self) -> bool {
        self.wf() && other.wf() && self.bit_seq().len() == other.bit_seq().len()
    }

    /// Union disjoins the bit arrays pointwise, keeps the configuration,
    /// and reports whether any bit changed.
    open spec fn union_rel(&self, pre: Self, other: &Self, changed: bool) -> bool {
        &&& self.bit_seq() == seq_or(pre.bit_seq(), other.bit_seq())
        &&& changed == (self.bit_seq() != pre.bit_seq())
        &&& self.spec_num_hashes() == pre.spec_num_hashes()
        &&& self.spec_hasher_one() == pre.spec_hasher_one()
        &&& self.spec_hasher_two() == pre.spec_hasher_two()
    }

    /// Calculates the union of two filters.  Items inserted into either
    /// filter will be present in `self`.  Both filters must use the same
    /// number of bits.  Returns `true` if `self` changed.
    fn union(&mut self, other: &Self) -> (changed: bool) {
        bv_or(&mut self.bits, &other.bits)
    }
}

/// Law: an item that could not be ruled out before an insert, or that is the
/// inserted item itself, cannot be ruled out afterwards.  In particular an
/// inserted item is never reported absent, whatever else is inserted later.
pub proof fn lemma_no_false_negative(
    pre: BloomFilter,
    post: BloomFilter,
    inserted: Seq<u8>,
    x: Seq<u8>,
    flag: bool,
)
    requires
        pre.wf(),
        post.insert_rel(pre, inserted, flag),
        pre.may_contain(x) || x == inserted,
    ensures
        post.may_contain(x),
{
    assert(post.bit_seq().len() == pre.bit_seq().len());
    assert forall|j: int| 0 <= j < post.spec_num_hashes() implies post.bit_seq()[
    #[trigger] post.probe_index(x, j)] by {
        assert(post.probe_index(x, j) == pre.probe_index(x, j));
        if pre.may_contain(x) {
            assert(pre.bit_seq()[pre.probe_index(x, j)]);
        } else {
            assert(pre.probes_cover(x, pre.probe_index(x, j)));
        }
    }
}

/// Law: a cleared filter that makes at least one probe reports every item
/// absent.
pub proof fn lemma_cleared_rules_out(post: BloomFilter, pre: BloomFilter, item: Seq<u8>)
    requires
        pre.wf(),
        post.wf(),
        post.clear_rel(pre),
        post.spec_num_hashes() >= 1,
    ensures
        !post.may_contain(item),
{
    vstd::arithmetic::div_mod::lemma_mod_bound(
        probe_value(
            seeded_hash(post.spec_hasher_one(), item),
            seeded_hash(post.spec_hasher_two(), item),
            0,
        ) as int,
        post.bit_seq().len() as int,
    );
    assert(!post.bit_seq()[post.probe_index(item, 0)]);
}

/// Law: after intersecting two filters of the same configuration, an item
/// may be contained exactly when both operands could contain it.
pub proof fn lemma_intersect_membership(
    result: BloomFilter,
    pre: BloomFilter,
    other: BloomFilter,
    item: Seq<u8>,
    changed: bool,
)
    requires
        pre.wf(),
        other.wf(),
        pre.same_config(&other),
        result.intersect_rel(pre, &other, changed),
    ensures
        result.may_contain(item) <==> (pre.may_contain(item) && other.may_contain(item)),
{
    assert(result.bit_seq().len() == pre.bit_seq().len());
    if pre.may_contain(item) && other.may_contain(item) {
        assert forall|j: int| 0 <= j < result.spec_num_hashes() implies result.bit_seq()[
        #[trigger] result.probe_index(item, j)] by {
            assert(result.probe_index(item, j) == pre.probe_index(item, j));
            assert(other.probe_index(item, j) == pre.probe_index(item, j));
            assert(pre.bit_seq()[pre.probe_index(item, j)]);
            assert(other.bit_seq()[other.probe_index(item, j)]);
        }
    }
    if result.may_contain(item) {
        assert forall|j: int| 0 <= j < pre.spec_num_hashes() implies pre.bit_seq()[
        #[trigger] pre.probe_index(item, j)] by {
            assert(result.probe_index(item, j) == pre.probe_index(item, j));
            assert(result.bit_seq()[result.probe_index(item, j)]);
        }
        assert forall|j: int| 0 <= j < other.spec_num_hashes() implies other.bit_seq()[
        #[trigger] other.probe_index(item, j)] by {
            assert(other.probe_index(item, j) == pre.probe_index(item, j));
            assert(result.probe_index(item, j) == pre.probe_index(item, j));
            assert(result.bit_seq()[result.probe_index(item, j)]);
        }
    }
}

/// Law: after unioning two filters of the same configuration, every item
/// that either operand could contain can still not be ruled out.
pub proof fn lemma_union_membership(
    result: BloomFilter,
    pre: BloomFilter,
    other: BloomFilter,
    item: Seq<u8>,
    changed: bool,
)
    requires
        pre.wf(),
        other.wf(),
        pre.same_config(&other),
        result.union_rel(pre, &other, changed),
        pre.may_contain(item) || other.may_contain(item),
    ensures
        result.may_contain(item),
{
    assert(result.bit_seq().len() == pre.bit_seq().len());
    assert forall|j: int| 0 <= j < result.spec_num_hashes() implies result.bit_seq()[
    #[trigger] result.probe_index(item, j)] by {
        assert(result.probe_index(item, j) == pre.probe_index(item, j));
        assert(other.probe_index(item, j) == pre.probe_index(item, j));
        if pre.may_contain(item) {
            assert(pre.bit_seq()[pre.probe_index(item, j)]);
        } else {
            assert(other.bit_seq()[other.probe_index(item, j)]);
        }
    }
}

} // verus!
