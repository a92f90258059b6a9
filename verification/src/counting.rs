//! A counting Bloom filter: a fixed number of bits per counter, support for
//! removal, and an upper-bound estimate of how many times an item was
//! inserted.  The counters live in a packed `ValueVec` and saturate at their
//! maximum instead of wrapping.

use vstd::prelude::*;

verus! {

use crate::ASMS;
use crate::hashing::HashIter;
use crate::hashing::SeededHasher;
use crate::hashing::probe_value;
use crate::hashing::seeded_hash;
use crate::valuevec::ValueVec;
use crate::valuevec::spec_bit_len;
use vstd::arithmetic::div_mod::lemma_mod_bound;

/// One saturating increment: raise the counter at `t` by one unless it
/// already sits at `max`.
pub open spec fn bump_at(c: Seq<u32>, t: int, max: u32) -> Seq<u32> {
    if c[t] < max {
        c.update(t, (c[t] + 1) as u32)
    } else {
        c
    }
}

/// One saturating decrement: lower the counter at `t` by one unless it is
/// zero.  A zero counter here signals a corrupted filter; it is left at
/// zero rather than wrapped.
pub open spec fn cut_at(c: Seq<u32>, t: int) -> Seq<u32> {
    if c[t] > 0 {
        c.update(t, (c[t] - 1) as u32)
    } else {
        c
    }
}

/// The counters after one insert that probes the positions `ps`, in order.
pub open spec fn counters_after_insert(c: Seq<u32>, ps: Seq<int>, max: u32) -> Seq<u32>
    decreases ps.len(),
{
    if ps.len() == 0 {
        c
    } else {
        bump_at(counters_after_insert(c, ps.drop_last(), max), ps.last(), max)
    }
}

/// The least counter value observed during an insert, each position read
/// just before its own increment.
pub open spec fn min_seen_insert(c: Seq<u32>, ps: Seq<int>, max: u32) -> u32
    decreases ps.len(),
{
    if ps.len() == 0 {
        u32::MAX
    } else {
        let prev = counters_after_insert(c, ps.drop_last(), max);
        let m = min_seen_insert(c, ps.drop_last(), max);
        if prev[ps.last()] < m {
            prev[ps.last()]
        } else {
            m
        }
    }
}

/// The counters after one removal that probes the positions `ps`, in order.
pub open spec fn counters_after_remove(c: Seq<u32>, ps: Seq<int>) -> Seq<u32>
    decreases ps.len(),
{
    if ps.len() == 0 {
        c
    } else {
        cut_at(counters_after_remove(c, ps.drop_last()), ps.last())
    }
}

/// The least counter value observed during a removal, each position read
/// just before its own decrement.
pub open spec fn min_seen_remove(c: Seq<u32>, ps: Seq<int>) -> u32
    decreases ps.len(),
{
    if ps.len() == 0 {
        u32::MAX
    } else {
        let prev = counters_after_remove(c, ps.drop_last());
        let m = min_seen_remove(c, ps.drop_last());
        if prev[ps.last()] < m {
            prev[ps.last()]
        } else {
            m
        }
    }
}

/// The least counter at the probed positions, read without any mutation.
pub open spec fn min_at(c: Seq<u32>, ps: Seq<int>) -> u32
    decreases ps.len(),
{
    if ps.len() == 0 {
        u32::MAX
    } else {
        let m = min_at(c, ps.drop_last());
        if c[ps.last()] < m {
            c[ps.last()]
        } else {
            m
        }
    }
}

/// A counting Bloom filter: packed counters together with a probe count and
/// two seeded hash functions.
pub struct CountingBloomFilter {
    counters: ValueVec,
    num_entries: u64,
    num_hashes: u32,
    hasher_one: SeededHasher,
    hasher_two: SeededHasher,
}

impl CountingBloomFilter {
    /// The counters of the filter, in order.
    pub closed spec fn counter_seq(&self) -> Seq<u32> {
        self.counters@
    }

    /// How many counters the filter holds.
    pub closed spec fn spec_num_entries(&self) -> u64 {
        self.num_entries
    }

    /// How many probes each operation makes.
    pub closed spec fn spec_num_hashes(&self) -> u32 {
        self.num_hashes
    }

    /// The seed of the first hash function.
    pub closed spec fn spec_hasher_one(&self) -> u64 {
        self.hasher_one@
    }

    /// The seed of the second hash function.
    pub closed spec fn spec_hasher_two(&self) -> u64 {
        self.hasher_two@
    }

    /// How many bits each counter occupies.
    pub closed spec fn spec_bits_per_entry(&self) -> usize {
        self.counters.spec_bits_per_val()
    }

    /// The saturation bound of each counter.
    pub closed spec fn spec_max_count(&self) -> u32 {
        self.counters.spec_max_value()
    }

    /// The filter is well formed: the counter store is well formed and holds
    /// one counter per entry, and there is at least one entry, so that probe
    /// values can be reduced modulo the entry count.
    pub closed spec fn wf(&self) -> bool {
        &&& self.counters.wf()
        &&& self.counters@.len() == self.num_entries
        &&& 1 <= self.num_entries <= usize::MAX as u64
    }

    /// The counter probed for `item` in probe round `j`: the `j`-th probe
    /// value, reduced modulo the number of entries.
    pub open spec fn probe_index(&self, item: Seq<u8>, j: int) -> int {
        probe_value(
            seeded_hash(self.spec_hasher_one(), item),
            seeded_hash(self.spec_hasher_two(), item),
            j,
        ) as int % self.spec_num_entries() as int
    }

    /// The probed positions of `item`, one per probe round.
    pub open spec fn probe_seq(&self, item: Seq<u8>) -> Seq<int> {
        Seq::new(self.spec_num_hashes() as nat, |j: int| self.probe_index(item, j))
    }

    /// The filter and another have the same dimensions and hash
    /// configuration.
    pub open spec fn same_config(&self, other: &Self) -> bool {
        &&& self.spec_num_entries() == other.spec_num_entries()
        &&& self.spec_num_hashes() == other.spec_num_hashes()
        &&& self.spec_hasher_one() == other.spec_hasher_one()
        &&& self.spec_hasher_two() == other.spec_hasher_two()
        &&& self.spec_max_count() == other.spec_max_count()
        &&& self.spec_bits_per_entry() == other.spec_bits_per_entry()
    }

    /// Every probed position of every item is a valid counter index.
    pub proof fn lemma_probes_in_range(&self, item: Seq<u8>)
        requires
            self.wf(),
        ensures
            forall|j: int|
                0 <= j < self.probe_seq(item).len() ==> 0 <= #[trigger] self.probe_seq(item)[j]
                    < self.counter_seq().len(),
    {
        assert forall|j: int| 0 <= j < self.probe_seq(item).len() implies 0
            <= #[trigger] self.probe_seq(item)[j] < self.counter_seq().len() by {
            lemma_mod_bound(
                probe_value(
                    seeded_hash(self.spec_hasher_one(), item),
                    seeded_hash(self.spec_hasher_two(), item),
                    j,
                ) as int,
                self.spec_num_entries() as int,
            );
        }
    }

    /// The saturation bound is at least one.
    pub proof fn lemma_max_count_positive(&self)
        requires
            self.wf(),
        ensures
            self.spec_max_count() >= 1,
    {
        self.counters.lemma_max_value_pow2();
    }

    /// Create a new counting filter that holds `num_entries` counters of
    /// `bits_per_entry` bits each and probes `num_hashes` positions, with
    /// two freshly seeded hash functions.
    pub fn with_size(num_entries: usize, bits_per_entry: usize, num_hashes: u32) -> (r:
        CountingBloomFilter)
        requires
            num_entries >= 1,
            1 <= bits_per_entry <= 31,
            bits_per_entry * num_entries <= usize::MAX,
        ensures
            r.wf(),
            r.counter_seq() == Seq::new(num_entries as nat, |i: int| 0u32),
            r.spec_num_entries() == num_entries,
            r.spec_num_hashes() == num_hashes,
            r.spec_bits_per_entry() == bits_per_entry,
            r.spec_max_count() == crate::valuevec::low_mask(bits_per_entry as u32),
            r.spec_max_count() as int == vstd::arithmetic::power2::pow2(bits_per_entry as nat)
                - 1,
    {
        CountingBloomFilter {
            counters: ValueVec::new(bits_per_entry, num_entries),
            num_entries: num_entries as u64,
            num_hashes,
            hasher_one: SeededHasher::from_entropy(),
            hasher_two: SeededHasher::from_entropy(),
        }
    }

    /// Create a new counting filter with the given dimensions and the two
    /// given hash functions.  The two hashers must provide independent hash
    /// values: correlated hashers silently break the false positive rate,
    /// though not the absence of false negatives.
    pub fn with_size_and_hashers(
        num_entries: usize,
        bits_per_entry: usize,
        num_hashes: u32,
        hasher_one: SeededHasher,
        hasher_two: SeededHasher,
    ) -> (r: CountingBloomFilter)
        requires
            num_entries >= 1,
            1 <= bits_per_entry <= 31,
            bits_per_entry * num_entries <= usize::MAX,
        ensures
            r.wf(),
            r.counter_seq() == Seq::new(num_entries as nat, |i: int| 0u32),
            r.spec_num_entries() == num_entries,
            r.spec_num_hashes() == num_hashes,
            r.spec_bits_per_entry() == bits_per_entry,
            r.spec_max_count() == crate::valuevec::low_mask(bits_per_entry as u32),
            r.spec_max_count() as int == vstd::arithmetic::power2::pow2(bits_per_entry as nat)
                - 1,
            r.spec_hasher_one() == hasher_one@,
            r.spec_hasher_two() == hasher_two@,
    {
        CountingBloomFilter {
            counters: ValueVec::new(bits_per_entry, num_entries),
            num_entries: num_entries as u64,
            num_hashes,
            hasher_one,
            hasher_two,
        }
    }

    /// Return the number of bits needed to hold values up to and including
    /// `max`.
    pub fn bits_for_max(max: u32) -> (r: usize)
        ensures
            r == spec_bit_len(max),
    {
        crate::valuevec::bit_len(max)
    }

    /// Inserts an item and returns the least counter value its probes
    /// observed before their increments: an upper-bound estimate of how
    /// often the item had been inserted before, not counting this insertion.
    pub fn insert_get_count(&mut self, item: &[u8]) -> (count: u32)
        requires
            old(self).wf(),
        ensures
            final(self).wf(),
            final(self).same_config(&*old(self)),
            final(self).counter_seq() == counters_after_insert(
                old(self).counter_seq(),
                old(self).probe_seq(item@),
                old(self).spec_max_count(),
            ),
            count == min_seen_insert(
                old(self).counter_seq(),
                old(self).probe_seq(item@),
                old(self).spec_max_count(),
            ),
    {
        let ne: u64 = self.num_entries;
        let k: u32 = self.num_hashes;
        let maxv: u32 = self.counters.max_value();
        let mut hashes = HashIter::from(item, k, &self.hasher_one, &self.hasher_two);
        let mut min: u32 = u32::MAX;
        let mut j: u32 = 0;
        let ghost ps = old(self).probe_seq(item@);
        let ghost c0 = old(self).counter_seq();
        while j < k
            invariant
                j <= k,
                ne >= 1,
                ne <= usize::MAX as u64,
                k == old(self).spec_num_hashes(),
                ne == old(self).spec_num_entries(),
                maxv == old(self).spec_max_count(),
                self.num_entries == old(self).num_entries,
                self.num_hashes == old(self).num_hashes,
                self.hasher_one == old(self).hasher_one,
                self.hasher_two == old(self).hasher_two,
                self.counters.wf(),
                self.counters.spec_bits_per_val() == old(self).counters.spec_bits_per_val(),
                self.counters.spec_max_value() == maxv,
                self.counters@.len() == c0.len(),
                c0.len() == ne,
                ps == old(self).probe_seq(item@),
                ps.len() == k,
                hashes.base_one() == seeded_hash(old(self).spec_hasher_one(), item@),
                hashes.base_two() == seeded_hash(old(self).spec_hasher_two(), item@),
                hashes.cursor() == j,
                hashes.total() == k,
                self.counters@ == counters_after_insert(c0, ps.take(j as int), maxv),
                min == min_seen_insert(c0, ps.take(j as int), maxv),
            decreases k - j,
        {
            let h: u64 = match hashes.next() {
                Some(h) => h,
                None => {
                    proof {
                        assert(false);
                    }
                    0
                },
            };
            let idx: usize = (h % ne) as usize;
            proof {
                assert(idx as int == old(self).probe_index(item@, j as int));
                assert(ps.take(j + 1 as int).drop_last() =~= ps.take(j as int));
                assert(ps.take(j + 1 as int).last() == ps[j as int]);
            }
            let cur: u32 = self.counters.get(idx);
            if cur < min {
                min = cur;
            }
            if cur < maxv {
                self.counters.set(idx, cur + 1);
            }
            j = j + 1;
        }
        proof {
            assert(ps.take(k as int) =~= ps);
        }
        min
    }

    /// Return an upper-bound estimate of the number of times `item` has been
    /// inserted into the filter: the least counter value over its probed
    /// positions.  The item has been inserted at most this many times, but
    /// possibly fewer.
    pub fn estimate_count(&self, item: &[u8]) -> (count: u32)
        requires
            self.wf(),
        ensures
            count == min_at(self.counter_seq(), self.probe_seq(item@)),
    {
        let ne: u64 = self.num_entries;
        let k: u32 = self.num_hashes;
        let mut hashes = HashIter::from(item, k, &self.hasher_one, &self.hasher_two);
        let mut min: u32 = u32::MAX;
        let mut j: u32 = 0;
        let ghost ps = self.probe_seq(item@);
        while j < k
            invariant
                j <= k,
                ne >= 1,
                self.wf(),
                k == self.spec_num_hashes(),
                ne == self.spec_num_entries(),
                ps == self.probe_seq(item@),
                ps.len() == k,
                hashes.base_one() == seeded_hash(self.spec_hasher_one(), item@),
                hashes.base_two() == seeded_hash(self.spec_hasher_two(), item@),
                hashes.cursor() == j,
                hashes.total() == k,
                min == min_at(self.counter_seq(), ps.take(j as int)),
            decreases k - j,
        {
            let h: u64 = match hashes.next() {
                Some(h) => h,
                None => {
                    proof {
                        assert(false);
                    }
                    0
                },
            };
            let idx: usize = (h % ne) as usize;
            proof {
                assert(idx as int == self.probe_index(item@, j as int));
                assert(ps.take(j + 1 as int).drop_last() =~= ps.take(j as int));
                assert(ps.take(j + 1 as int).last() == ps[j as int]);
            }
            let cur: u32 = self.counters.get(idx);
            if cur < min {
                min = cur;
            }
            j = j + 1;
        }
        proof {
            assert(ps.take(k as int) =~= ps);
        }
        min
    }

    /// Remove an item.  Returns an upper bound of the number of times the
    /// item had been inserted previously, and 0, without touching any
    /// counter, if the item is not contained.  Every probed counter is
    /// decremented once per probe; a counter that is already zero mid-way
    /// signals a corrupted filter and stays at zero rather than wrapping.
    pub fn remove(&mut self, item: &[u8]) -> (removed: u32)
        requires
            old(self).wf(),
        ensures
            final(self).wf(),
            final(self).same_config(&*old(self)),
            !old(self).may_contain(item@) ==> {
                &&& final(self).counter_seq() == old(self).counter_seq()
                &&& removed == 0
            },
            old(self).may_contain(item@) ==> {
                &&& final(self).counter_seq() == counters_after_remove(
                    old(self).counter_seq(),
                    old(self).probe_seq(item@),
                )
                &&& removed == min_seen_remove(
                    old(self).counter_seq(),
                    old(self).probe_seq(item@),
                )
            },
    {
        if !self.contains(item) {
            return 0;
        }
        let ne: u64 = self.num_entries;
        let k: u32 = self.num_hashes;
        let mut hashes = HashIter::from(item, k, &self.hasher_one, &self.hasher_two);
        let mut min: u32 = u32::MAX;
        let mut j: u32 = 0;
        let ghost ps = old(self).probe_seq(item@);
        let ghost c0 = old(self).counter_seq();
        while j < k
            invariant
                j <= k,
                ne >= 1,
                ne <= usize::MAX as u64,
                k == old(self).spec_num_hashes(),
                ne == old(self).spec_num_entries(),
                self.num_entries == old(self).num_entries,
                self.num_hashes == old(self).num_hashes,
                self.hasher_one == old(self).hasher_one,
                self.hasher_two == old(self).hasher_two,
                self.counters.wf(),
                self.counters.spec_bits_per_val() == old(self).counters.spec_bits_per_val(),
                self.counters.spec_max_value() == old(self).counters.spec_max_value(),
                self.counters@.len() == c0.len(),
                c0.len() == ne,
                ps == old(self).probe_seq(item@),
                ps.len() == k,
                hashes.base_one() == seeded_hash(old(self).spec_hasher_one(), item@),
                hashes.base_two() == seeded_hash(old(self).spec_hasher_two(), item@),
                hashes.cursor() == j,
                hashes.total() == k,
                self.counters@ == counters_after_remove(c0, ps.take(j as int)),
                min == min_seen_remove(c0, ps.take(j as int)),
            decreases k - j,
        {
            let h: u64 = match hashes.next() {
                Some(h) => h,
                None => {
                    proof {
                        assert(false);
                    }
                    0
                },
            };
            let idx: usize = (h % ne) as usize;
            proof {
                assert(idx as int == old(self).probe_index(item@, j as int));
                assert(ps.take(j + 1 as int).drop_last() =~= ps.take(j as int));
                assert(ps.take(j + 1 as int).last() == ps[j as int]);
            }
            let cur: u32 = self.counters.get(idx);
            if cur < min {
                min = cur;
            }
            if cur > 0 {
                proof {
                    self.counters.lemma_values_bounded();
                }
                self.counters.set(idx, cur - 1);
            }
            j = j + 1;
        }
        proof {
            assert(ps.take(k as int) =~= ps);
        }
        min
    }
}

impl ASMS for CountingBloomFilter {
    open spec fn valid(&self) -> bool {
        self.wf()
    }

    /// Every probed counter of the item is nonzero.
    open spec fn may_contain(&self, item: Seq<u8>) -> bool {
        forall|j: int|
            0 <= j < self.spec_num_hashes() ==> self.counter_seq()[#[trigger] self.probe_index(
                item,
                j,
            )] > 0
    }

    /// Inserting bumps each probed counter once, saturating at the maximum;
    /// the flag reports whether every probed counter was already nonzero
    /// before its increment, that is whether the item was probably already
    /// present.
    open spec fn insert_rel(&self, pre: Self, item: Seq<u8>, flag: bool) -> bool {
        &&& self.counter_seq() == counters_after_insert(
            pre.counter_seq(),
            pre.probe_seq(item),
            pre.spec_max_count(),
        )
        &&& flag == (min_seen_insert(pre.counter_seq(), pre.probe_seq(item), pre.spec_max_count())
            > 0)
        &&& self.same_config(&pre)
    }

    /// Clearing zeroes every counter and keeps the configuration.
    open spec fn clear_rel(&self, pre: Self) -> bool {
        &&& self.counter_seq() == Seq::new(pre.counter_seq().len(), |i: int| 0u32)
        &&& self.same_config(&pre)
    }

    /// Inserts an item.  Returns `true` if this item was probably already in
    /// the filter any number of times.
    fn insert(&mut self, item: &[u8]) -> (flag: bool) {
        let count: u32 = self.insert_get_count(item);
        proof {
            let pre = *old(self);
            let ps = pre.probe_seq(item@);
            let maxv = pre.spec_max_count();
            pre.lemma_probes_in_range(item@);
            pre.lemma_max_count_positive();
            lemma_insert_fold_basic(pre.counter_seq(), ps, maxv);
            // Every probed counter is positive afterwards.
            assert forall|j: int| 0 <= j < self.spec_num_hashes() implies self.counter_seq()[
            #[trigger] self.probe_index(item@, j)] > 0 by {
                assert(self.probe_index(item@, j) == pre.probe_index(item@, j));
                lemma_insert_fold_positive(pre.counter_seq(), ps, maxv, j);
                assert(ps[j] == pre.probe_index(item@, j));
            }
            // Counters never shrink, so membership is preserved.
            assert forall|other: Seq<u8>| pre.may_contain(other) implies self.may_contain(
                other,
            ) by {
                pre.lemma_probes_in_range(other);
                assert forall|j: int| 0 <= j < self.spec_num_hashes() implies self.counter_seq()[
                #[trigger] self.probe_index(other, j)] > 0 by {
                    assert(self.probe_index(other, j) == pre.probe_index(other, j));
                    assert(pre.probe_seq(other)[j] == pre.probe_index(other, j));
                    assert(pre.counter_seq()[pre.probe_index(other, j)] > 0);
                }
            }
        }
        count > 0
    }

    /// Check if the item has been inserted into this filter.  This function
    /// can return false positives, but never false negatives.
    fn contains(&self, item: &[u8]) -> (present: bool) {
        let ne: u64 = self.num_entries;
        let k: u32 = self.num_hashes;
        let mut hashes = HashIter::from(item, k, &self.hasher_one, &self.hasher_two);
        let mut j: u32 = 0;
        while j < k
            invariant
                j <= k,
                ne >= 1,
                self.wf(),
                k == self.spec_num_hashes(),
                ne == self.spec_num_entries(),
                hashes.base_one() == seeded_hash(self.spec_hasher_one(), item@),
                hashes.base_two() == seeded_hash(self.spec_hasher_two(), item@),
                hashes.cursor() == j,
                hashes.total() == k,
                forall|jj: int|
                    0 <= jj < j ==> self.counter_seq()[#[trigger] self.probe_index(item@, jj)]
                        > 0,
            decreases k - j,
        {
            let h: u64 = match hashes.next() {
                Some(h) => h,
                None => {
                    proof {
                        assert(false);
                    }
                    0
                },
            };
            let idx: usize = (h % ne) as usize;
            proof {
                assert(idx as int == self.probe_index(item@, j as int));
            }
            let cur: u32 = self.counters.get(idx);
            if cur == 0 {
                return false;
            }
            j = j + 1;
        }
        true
    }

    /// Remove all values from this filter, keeping its dimensions.
    fn clear(&mut self) {
        self.counters.clear();
    }
}

/// Basic shape of one insert fold: the length is kept, no counter shrinks,
/// no counter climbs past the maximum, and untouched counters are unchanged.
pub proof fn lemma_insert_fold_basic(c: Seq<u32>, ps: Seq<int>, max: u32)
    requires
        forall|j: int| 0 <= j < ps.len() ==> 0 <= #[trigger] ps[j] < c.len(),
    ensures
        counters_after_insert(c, ps, max).len() == c.len(),
        forall|t: int|
            0 <= t < c.len() ==> c[t] <= #[trigger] counters_after_insert(c, ps, max)[t],
        forall|t: int|
            0 <= t < c.len() && c[t] <= max ==> #[trigger] counters_after_insert(c, ps, max)[t]
                <= max,
        forall|t: int|
            0 <= t < c.len() && !ps.contains(t) ==> #[trigger] counters_after_insert(
                c,
                ps,
                max,
            )[t] == c[t],
    decreases ps.len(),
{
    if ps.len() > 0 {
        assert(forall|j: int|
            0 <= j < ps.drop_last().len() ==> 0 <= #[trigger] ps.drop_last()[j] < c.len());
        lemma_insert_fold_basic(c, ps.drop_last(), max);
        assert forall|t: int| 0 <= t < c.len() && !ps.contains(t) implies #[trigger] counters_after_insert(
            c,
            ps,
            max,
        )[t] == c[t] by {
            assert(!ps.drop_last().contains(t)) by {
                if ps.drop_last().contains(t) {
                    let w = choose|w: int| 0 <= w < ps.drop_last().len() && ps.drop_last()[w] == t;
                    assert(ps[w] == t);
                }
            }
            assert(ps.last() != t);
        }
    }
}

/// The counters after `n` inserts that all probe the same positions `ps`.
pub open spec fn counters_after_inserts(c: Seq<u32>, ps: Seq<int>, max: u32, n: nat) -> Seq<u32>
    decreases n,
{
    if n == 0 {
        c
    } else {
        counters_after_insert(counters_after_inserts(c, ps, max, (n - 1) as nat), ps, max)
    }
}

/// The counters after `n` removals that all probe the same positions `ps`.
pub open spec fn counters_after_removes(c: Seq<u32>, ps: Seq<int>, n: nat) -> Seq<u32>
    decreases n,
{
    if n == 0 {
        c
    } else {
        counters_after_remove(counters_after_removes(c, ps, (n - 1) as nat), ps)
    }
}

/// The probed positions are pairwise distinct: no probe collides with
/// another probe of the same item.
pub open spec fn distinct_probes(ps: Seq<int>) -> bool {
    forall|a: int, b: int| 0 <= a < b < ps.len() ==> ps[a] != ps[b]
}

/// After one insert fold with a positive maximum, every probed counter is
/// positive.
pub proof fn lemma_insert_fold_positive(c: Seq<u32>, ps: Seq<int>, max: u32, j0: int)
    requires
        forall|j: int| 0 <= j < ps.len() ==> 0 <= #[trigger] ps[j] < c.len(),
        max >= 1,
        0 <= j0 < ps.len(),
    ensures
        counters_after_insert(c, ps, max)[ps[j0]] >= 1,
    decreases ps.len(),
{
    assert(forall|j: int|
        0 <= j < ps.drop_last().len() ==> 0 <= #[trigger] ps.drop_last()[j] < c.len());
    lemma_insert_fold_basic(c, ps.drop_last(), max);
    let prev = counters_after_insert(c, ps.drop_last(), max);
    if j0 == ps.len() - 1 {
        assert(counters_after_insert(c, ps, max) == bump_at(prev, ps.last(), max));
    } else {
        lemma_insert_fold_positive(c, ps.drop_last(), max, j0);
        assert(ps.drop_last()[j0] == ps[j0]);
    }
}

/// One insert fold raises a probed counter that is still below the maximum
/// by at least one.
proof fn lemma_insert_fold_bumped(c: Seq<u32>, ps: Seq<int>, max: u32, j0: int)
    requires
        forall|j: int| 0 <= j < ps.len() ==> 0 <= #[trigger] ps[j] < c.len(),
        0 <= j0 < ps.len(),
        c[ps[j0]] < max,
    ensures
        counters_after_insert(c, ps, max)[ps[j0]] >= c[ps[j0]] + 1,
    decreases ps.len(),
{
    assert(forall|j: int|
        0 <= j < ps.drop_last().len() ==> 0 <= #[trigger] ps.drop_last()[j] < c.len());
    lemma_insert_fold_basic(c, ps.drop_last(), max);
    let prev = counters_after_insert(c, ps.drop_last(), max);
    if j0 == ps.len() - 1 {
        let t = ps[j0];
        if prev[t] < max {
            assert(counters_after_insert(c, ps, max)[t] == prev[t] + 1);
        } else {
            assert(counters_after_insert(c, ps, max)[t] == prev[t]);
        }
    } else {
        lemma_insert_fold_bumped(c, ps.drop_last(), max, j0);
        assert(ps.drop_last()[j0] == ps[j0]);
    }
}

/// Basic shape of `n` insert folds: the length is kept, no counter shrinks,
/// no counter climbs past the maximum, and untouched counters are unchanged.
proof fn lemma_inserts_fold_basic(c: Seq<u32>, ps: Seq<int>, max: u32, n: nat)
    requires
        forall|j: int| 0 <= j < ps.len() ==> 0 <= #[trigger] ps[j] < c.len(),
    ensures
        counters_after_inserts(c, ps, max, n).len() == c.len(),
        forall|t: int|
            0 <= t < c.len() ==> c[t] <= #[trigger] counters_after_inserts(c, ps, max, n)[t],
        forall|t: int|
            0 <= t < c.len() && c[t] <= max ==> #[trigger] counters_after_inserts(
                c,
                ps,
                max,
                n,
            )[t] <= max,
        forall|t: int|
            0 <= t < c.len() && !ps.contains(t) ==> #[trigger] counters_after_inserts(
                c,
                ps,
                max,
                n,
            )[t] == c[t],
    decreases n,
{
    if n > 0 {
        lemma_inserts_fold_basic(c, ps, max, (n - 1) as nat);
        let prev = counters_after_inserts(c, ps, max, (n - 1) as nat);
        lemma_insert_fold_basic(prev, ps, max);
    }
}

/// Repeated inserts drive a probed counter up to the maximum: after `n`
/// rounds it has either grown by `n` or reached the maximum.
proof fn lemma_inserts_fold_lower(c: Seq<u32>, ps: Seq<int>, max: u32, n: nat, j0: int)
    requires
        forall|j: int| 0 <= j < ps.len() ==> 0 <= #[trigger] ps[j] < c.len(),
        forall|t: int| 0 <= t < c.len() ==> c[t] <= max,
        0 <= j0 < ps.len(),
    ensures
        counters_after_inserts(c, ps, max, n)[ps[j0]] >= c[ps[j0]] + n || counters_after_inserts(
            c,
            ps,
            max,
            n,
        )[ps[j0]] == max,
    decreases n,
{
    if n > 0 {
        lemma_inserts_fold_lower(c, ps, max, (n - 1) as nat, j0);
        lemma_inserts_fold_basic(c, ps, max, (n - 1) as nat);
        let prev = counters_after_inserts(c, ps, max, (n - 1) as nat);
        let t = ps[j0];
        lemma_insert_fold_basic(prev, ps, max);
        if prev[t] < max {
            lemma_insert_fold_bumped(prev, ps, max, j0);
        }
    }
}

/// Law (saturation): once an item has been inserted at least as often as a
/// counter can count, each of its probed counters sits exactly at the
/// saturation bound; no counter ever climbs past the bound, so none wraps
/// back to zero.
pub proof fn lemma_saturation(f: CountingBloomFilter, item: Seq<u8>, n: nat, j0: int)
    requires
        f.wf(),
        0 <= j0 < f.probe_seq(item).len(),
        n >= f.spec_max_count(),
    ensures
        counters_after_inserts(
            f.counter_seq(),
            f.probe_seq(item),
            f.spec_max_count(),
            n,
        )[f.probe_seq(item)[j0]] == f.spec_max_count(),
        forall|t: int|
            0 <= t < f.counter_seq().len() ==> #[trigger] counters_after_inserts(
                f.counter_seq(),
                f.probe_seq(item),
                f.spec_max_count(),
                n,
            )[t] <= f.spec_max_count(),
{
    let c = f.counter_seq();
    let ps = f.probe_seq(item);
    let max = f.spec_max_count();
    f.lemma_probes_in_range(item);
    f.counters.lemma_values_bounded();
    lemma_inserts_fold_basic(c, ps, max, n);
    lemma_inserts_fold_lower(c, ps, max, n, j0);
}

/// With pairwise distinct probes, one insert fold bumps each probed counter
/// exactly once.
proof fn lemma_insert_fold_distinct(c: Seq<u32>, ps: Seq<int>, max: u32, j0: int)
    requires
        forall|j: int| 0 <= j < ps.len() ==> 0 <= #[trigger] ps[j] < c.len(),
        distinct_probes(ps),
        0 <= j0 < ps.len(),
    ensures
        counters_after_insert(c, ps, max)[ps[j0]] == if c[ps[j0]] < max {
            (c[ps[j0]] + 1) as u32
        } else {
            c[ps[j0]]
        },
    decreases ps.len(),
{
    assert(forall|j: int|
        0 <= j < ps.drop_last().len() ==> 0 <= #[trigger] ps.drop_last()[j] < c.len());
    let t = ps[j0];
    let prev = counters_after_insert(c, ps.drop_last(), max);
    assert(counters_after_insert(c, ps, max) == bump_at(prev, ps.last(), max));
    if j0 == ps.len() - 1 {
        assert(!ps.drop_last().contains(t)) by {
            if ps.drop_last().contains(t) {
                let w = choose|w: int| 0 <= w < ps.drop_last().len() && ps.drop_last()[w] == t;
                assert(ps[w] == ps[j0]);
            }
        }
        lemma_insert_fold_basic(c, ps.drop_last(), max);
        assert(prev.len() == c.len());
        assert(prev[t] == c[t]);
        assert(ps.last() == t);
        if prev[t] < max {
            assert(bump_at(prev, t, max)[t] == (c[t] + 1) as u32);
        } else {
            assert(bump_at(prev, t, max)[t] == c[t]);
        }
    } else {
        assert(distinct_probes(ps.drop_last()));
        lemma_insert_fold_distinct(c, ps.drop_last(), max, j0);
        assert(ps.drop_last()[j0] == t);
        assert(ps.last() != t);
        assert(prev.len() == c.len()) by {
            lemma_insert_fold_basic(c, ps.drop_last(), max);
        }
        assert(bump_at(prev, ps.last(), max)[t] == prev[t]);
    }
}

/// With pairwise distinct probes, one removal fold cuts each probed counter
/// exactly once.
proof fn lemma_remove_fold_distinct(c: Seq<u32>, ps: Seq<int>, j0: int)
    requires
        forall|j: int| 0 <= j < ps.len() ==> 0 <= #[trigger] ps[j] < c.len(),
        distinct_probes(ps),
        0 <= j0 < ps.len(),
    ensures
        counters_after_remove(c, ps)[ps[j0]] == if c[ps[j0]] > 0 {
            (c[ps[j0]] - 1) as u32
        } else {
            c[ps[j0]]
        },
    decreases ps.len(),
{
    assert(forall|j: int|
        0 <= j < ps.drop_last().len() ==> 0 <= #[trigger] ps.drop_last()[j] < c.len());
    let t = ps[j0];
    let prev = counters_after_remove(c, ps.drop_last());
    assert(counters_after_remove(c, ps) == cut_at(prev, ps.last()));
    if j0 == ps.len() - 1 {
        assert(!ps.drop_last().contains(t)) by {
            if ps.drop_last().contains(t) {
                let w = choose|w: int| 0 <= w < ps.drop_last().len() && ps.drop_last()[w] == t;
                assert(ps[w] == ps[j0]);
            }
        }
        lemma_remove_fold_frame(c, ps.drop_last());
        assert(prev.len() == c.len());
        assert(prev[t] == c[t]);
        assert(ps.last() == t);
        if prev[t] > 0 {
            assert(cut_at(prev, t)[t] == (c[t] - 1) as u32);
        } else {
            assert(cut_at(prev, t)[t] == c[t]);
        }
    } else {
        assert(distinct_probes(ps.drop_last()));
        lemma_remove_fold_distinct(c, ps.drop_last(), j0);
        assert(ps.drop_last()[j0] == t);
        assert(ps.last() != t);
        assert(prev.len() == c.len()) by {
            lemma_remove_fold_frame(c, ps.drop_last());
        }
        assert(cut_at(prev, ps.last())[t] == prev[t]);
    }
}

/// Basic shape of one removal fold: the length is kept and untouched
/// counters are unchanged.
proof fn lemma_remove_fold_frame(c: Seq<u32>, ps: Seq<int>)
    requires
        forall|j: int| 0 <= j < ps.len() ==> 0 <= #[trigger] ps[j] < c.len(),
    ensures
        counters_after_remove(c, ps).len() == c.len(),
        forall|t: int|
            0 <= t < c.len() && !ps.contains(t) ==> #[trigger] counters_after_remove(c, ps)[t]
                == c[t],
    decreases ps.len(),
{
    if ps.len() > 0 {
        assert(forall|j: int|
            0 <= j < ps.drop_last().len() ==> 0 <= #[trigger] ps.drop_last()[j] < c.len());
        lemma_remove_fold_frame(c, ps.drop_last());
        assert forall|t: int| 0 <= t < c.len() && !ps.contains(t) implies #[trigger] counters_after_remove(
            c,
            ps,
        )[t] == c[t] by {
            assert(!ps.drop_last().contains(t)) by {
                if ps.drop_last().contains(t) {
                    let w = choose|w: int|
                        0 <= w < ps.drop_last().len() && ps.drop_last()[w] == t;
                    assert(ps[w] == t);
                }
            }
            assert(ps.last() != t);
        }
    }
}

/// With pairwise distinct probes, `n` insert folds from a state where a
/// probed counter holds `v` leave it at `v + n`, capped at the maximum.
proof fn lemma_inserts_fold_distinct(c: Seq<u32>, ps: Seq<int>, max: u32, n: nat, j0: int)
    requires
        forall|j: int| 0 <= j < ps.len() ==> 0 <= #[trigger] ps[j] < c.len(),
        distinct_probes(ps),
        0 <= j0 < ps.len(),
        c[ps[j0]] <= max,
    ensures
        counters_after_inserts(c, ps, max, n)[ps[j0]] as int == if c[ps[j0]] + n <= max {
            c[ps[j0]] + n
        } else {
            max as int
        },
    decreases n,
{
    if n > 0 {
        lemma_inserts_fold_distinct(c, ps, max, (n - 1) as nat, j0);
        lemma_inserts_fold_basic(c, ps, max, (n - 1) as nat);
        let prev = counters_after_inserts(c, ps, max, (n - 1) as nat);
        lemma_insert_fold_distinct(prev, ps, max, j0);
    }
}

/// With pairwise distinct probes, `n` removal folds from a state where a
/// probed counter holds at least `n` lower it by exactly `n`.
proof fn lemma_removes_fold_distinct(c: Seq<u32>, ps: Seq<int>, n: nat, j0: int)
    requires
        forall|j: int| 0 <= j < ps.len() ==> 0 <= #[trigger] ps[j] < c.len(),
        distinct_probes(ps),
        0 <= j0 < ps.len(),
        n <= c[ps[j0]],
    ensures
        counters_after_removes(c, ps, n).len() == c.len(),
        counters_after_removes(c, ps, n)[ps[j0]] == c[ps[j0]] - n,
    decreases n,
{
    lemma_removes_fold_len(c, ps, n);
    if n > 0 {
        lemma_removes_fold_distinct(c, ps, (n - 1) as nat, j0);
        let prev = counters_after_removes(c, ps, (n - 1) as nat);
        lemma_remove_fold_distinct(prev, ps, j0);
    }
}

/// `n` removal folds keep the length.
proof fn lemma_removes_fold_len(c: Seq<u32>, ps: Seq<int>, n: nat)
    requires
        forall|j: int| 0 <= j < ps.len() ==> 0 <= #[trigger] ps[j] < c.len(),
    ensures
        counters_after_removes(c, ps, n).len() == c.len(),
    decreases n,
{
    if n > 0 {
        lemma_removes_fold_len(c, ps, (n - 1) as nat);
        lemma_remove_fold_frame(counters_after_removes(c, ps, (n - 1) as nat), ps);
    }
}

/// The least probed counter is positive exactly when every probed counter
/// is positive: `contains` and a positive `estimate_count` agree.
pub proof fn lemma_min_at_positive(c: Seq<u32>, ps: Seq<int>)
    requires
        forall|j: int| 0 <= j < ps.len() ==> 0 <= #[trigger] ps[j] < c.len(),
    ensures
        (min_at(c, ps) > 0) <==> (forall|j: int| 0 <= j < ps.len() ==> c[#[trigger] ps[j]] > 0),
    decreases ps.len(),
{
    if ps.len() > 0 {
        assert(forall|j: int|
            0 <= j < ps.drop_last().len() ==> 0 <= #[trigger] ps.drop_last()[j] < c.len());
        lemma_min_at_positive(c, ps.drop_last());
        if min_at(c, ps) > 0 {
            assert forall|j: int| 0 <= j < ps.len() implies c[#[trigger] ps[j]] > 0 by {
                if j < ps.len() - 1 {
                    assert(ps.drop_last()[j] == ps[j]);
                }
            }
        } else {
            if min_at(c, ps.drop_last()) > 0 {
                assert(c[ps.last()] == min_at(c, ps));
            }
        }
    }
}

/// The least probed counter never exceeds any probed counter.
pub proof fn lemma_min_at_le(c: Seq<u32>, ps: Seq<int>, j0: int)
    requires
        forall|j: int| 0 <= j < ps.len() ==> 0 <= #[trigger] ps[j] < c.len(),
        0 <= j0 < ps.len(),
    ensures
        min_at(c, ps) <= c[ps[j0]],
    decreases ps.len(),
{
    if j0 == ps.len() - 1 {
    } else {
        assert(forall|j: int|
            0 <= j < ps.drop_last().len() ==> 0 <= #[trigger] ps.drop_last()[j] < c.len());
        lemma_min_at_le(c, ps.drop_last(), j0);
        assert(ps.drop_last()[j0] == ps[j0]);
    }
}

/// When every probed counter holds the same value `v`, both the read-only
/// minimum and the minimum seen during a removal equal `v`.
proof fn lemma_min_uniform(c: Seq<u32>, ps: Seq<int>, v: u32)
    requires
        forall|j: int| 0 <= j < ps.len() ==> 0 <= #[trigger] ps[j] < c.len(),
        forall|j: int| 0 <= j < ps.len() ==> c[#[trigger] ps[j]] == v,
        distinct_probes(ps),
        ps.len() >= 1,
        v < u32::MAX,
    ensures
        min_at(c, ps) == v,
        min_seen_remove(c, ps) == v,
    decreases ps.len(),
{
    assert(forall|j: int|
        0 <= j < ps.drop_last().len() ==> 0 <= #[trigger] ps.drop_last()[j] < c.len());
    let t = ps[ps.len() - 1];
    assert(c[t] == v);
    assert(ps.last() == t);
    if ps.len() == 1 {
        assert(ps.drop_last().len() == 0);
        assert(counters_after_remove(c, ps.drop_last()) == c);
        assert(min_at(c, ps.drop_last()) == u32::MAX);
        assert(min_seen_remove(c, ps.drop_last()) == u32::MAX);
        assert(min_at(c, ps) == c[t]);
        assert(min_seen_remove(c, ps) == c[t]);
    } else {
        assert(distinct_probes(ps.drop_last()));
        assert(forall|j: int|
            0 <= j < ps.drop_last().len() ==> c[#[trigger] ps.drop_last()[j]] == v);
        lemma_min_uniform(c, ps.drop_last(), v);
        // The last probe is untouched by the earlier decrements.
        assert(!ps.drop_last().contains(t)) by {
            if ps.drop_last().contains(t) {
                let w = choose|w: int| 0 <= w < ps.drop_last().len() && ps.drop_last()[w] == t;
                assert(ps[w] == ps[ps.len() - 1]);
            }
        }
        lemma_remove_fold_frame(c, ps.drop_last());
        assert(counters_after_remove(c, ps.drop_last())[t] == v);
        assert(min_at(c, ps) == v);
        assert(min_seen_remove(c, ps) == v);
    }
}

/// Law (removal bound): take a filter whose counters hold exactly `n`
/// inserts of one item with pairwise distinct probe positions, starting
/// from all zeros.  The least probed counter, which is what
/// `estimate_count` and `remove` report, equals `n` capped at the
/// saturation bound, so it never exceeds the true insert count `n`.  And
/// when the counters did not saturate, removing the item as often as it
/// was inserted leaves every probed counter at zero, so `contains` then
/// reports the item absent.
pub proof fn lemma_remove_bound(f: CountingBloomFilter, item: Seq<u8>, n: nat)
    requires
        f.wf(),
        f.spec_num_hashes() >= 1,
        n >= 1,
        distinct_probes(f.probe_seq(item)),
        f.counter_seq() == counters_after_inserts(
            Seq::new(f.spec_num_entries() as nat, |i: int| 0u32),
            f.probe_seq(item),
            f.spec_max_count(),
            n,
        ),
    ensures
        min_at(f.counter_seq(), f.probe_seq(item)) as int == if n <= f.spec_max_count() {
            n as int
        } else {
            f.spec_max_count() as int
        },
        min_at(f.counter_seq(), f.probe_seq(item)) <= n,
        min_seen_remove(f.counter_seq(), f.probe_seq(item)) == min_at(
            f.counter_seq(),
            f.probe_seq(item),
        ),
        n <= f.spec_max_count() ==> min_at(
            counters_after_removes(f.counter_seq(), f.probe_seq(item), n),
            f.probe_seq(item),
        ) == 0,
{
    let ps = f.probe_seq(item);
    let max = f.spec_max_count();
    let zeros = Seq::new(f.spec_num_entries() as nat, |i: int| 0u32);
    f.lemma_probes_in_range(item);
    f.counters.lemma_max_value_pow2();
    assert(forall|j: int| 0 <= j < ps.len() ==> 0 <= #[trigger] ps[j] < zeros.len());
    lemma_inserts_fold_basic(zeros, ps, max, n);
    let v: u32 = if n <= max {
        n as u32
    } else {
        max
    };
    assert forall|j: int| 0 <= j < ps.len() implies f.counter_seq()[#[trigger] ps[j]] == v by {
        lemma_inserts_fold_distinct(zeros, ps, max, n, j);
    }
    lemma_min_uniform(f.counter_seq(), ps, v);
    if n <= max {
        let after = counters_after_removes(f.counter_seq(), ps, n);
        lemma_removes_fold_len(f.counter_seq(), ps, n);
        assert forall|j: int| 0 <= j < ps.len() implies after[#[trigger] ps[j]] == 0 by {
            lemma_removes_fold_distinct(f.counter_seq(), ps, n, j);
        }
        lemma_min_at_le(after, ps, 0);
    }
}

/// Law: an item that could not be ruled out before an insert, or that is
/// the inserted item itself, cannot be ruled out afterwards.  In particular
/// an inserted item is never reported absent, whatever else is inserted
/// later, until it is removed or the filter is cleared.
pub proof fn lemma_no_false_negative(
    pre: CountingBloomFilter,
    post: CountingBloomFilter,
    inserted: Seq<u8>,
    x: Seq<u8>,
    flag: bool,
)
    requires
        pre.wf(),
        post.insert_rel(pre, inserted, flag),
        pre.may_contain(x) || x == inserted,
    ensures
        post.may_contain(x),
{
    let ps = pre.probe_seq(inserted);
    let max = pre.spec_max_count();
    pre.lemma_probes_in_range(inserted);
    pre.lemma_max_count_positive();
    lemma_insert_fold_basic(pre.counter_seq(), ps, max);
    assert forall|j: int| 0 <= j < post.spec_num_hashes() implies post.counter_seq()[
    #[trigger] post.probe_index(x, j)] > 0 by {
        assert(post.probe_index(x, j) == pre.probe_index(x, j));
        if pre.may_contain(x) {
            pre.lemma_probes_in_range(x);
            assert(pre.probe_seq(x)[j] == pre.probe_index(x, j));
            assert(pre.counter_seq()[pre.probe_index(x, j)] > 0);
        } else {
            lemma_insert_fold_positive(pre.counter_seq(), ps, max, j);
            assert(ps[j] == pre.probe_index(x, j));
        }
    }
}

/// Law: a filter can not rule an item out exactly when the least counter
/// over the item's probed positions is positive: `contains` agrees with a
/// positive `estimate_count`.
pub proof fn lemma_contains_estimate(f: CountingBloomFilter, item: Seq<u8>)
    requires
        f.wf(),
    ensures
        f.may_contain(item) <==> min_at(f.counter_seq(), f.probe_seq(item)) > 0,
{
    let ps = f.probe_seq(item);
    f.lemma_probes_in_range(item);
    lemma_min_at_positive(f.counter_seq(), ps);
    if f.may_contain(item) {
        assert forall|j: int| 0 <= j < ps.len() implies f.counter_seq()[#[trigger] ps[j]]
            > 0 by {
            assert(ps[j] == f.probe_index(item, j));
            assert(f.counter_seq()[f.probe_index(item, j)] > 0);
        }
    }
    if min_at(f.counter_seq(), ps) > 0 {
        assert forall|j: int| 0 <= j < f.spec_num_hashes() implies f.counter_seq()[
        #[trigger] f.probe_index(item, j)] > 0 by {
            assert(ps[j] == f.probe_index(item, j));
            assert(f.counter_seq()[ps[j]] > 0);
        }
    }
}

/// Law: a cleared filter that makes at least one probe reports every item
/// absent.
pub proof fn lemma_cleared_rules_out(
    post: CountingBloomFilter,
    pre: CountingBloomFilter,
    item: Seq<u8>,
)
    requires
        pre.wf(),
        post.wf(),
        post.clear_rel(pre),
        post.spec_num_hashes() >= 1,
    ensures
        !post.may_contain(item),
{
    post.lemma_probes_in_range(item);
    assert(post.probe_seq(item)[0] == post.probe_index(item, 0));
    assert(post.counter_seq()[post.probe_index(item, 0)] == 0);
}

} // verus!
