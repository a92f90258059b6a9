//! The packed value store: a flat array of 32-bit words treated as an array
//! of fixed-width unsigned integer slots.  A slot whose bit range crosses a
//! word boundary is split into an upper part at the end of one word and a
//! lower part at the start of the next.

use vstd::prelude::*;

verus! {

use vstd::arithmetic::div_mod::lemma_fundamental_div_mod;
use vstd::arithmetic::mul::lemma_mul_inequality;
use vstd::arithmetic::power2::lemma2_to64;
use vstd::arithmetic::power2::lemma_pow2_strictly_increases;
use vstd::arithmetic::power2::pow2;
use vstd::bits::lemma_u32_shl_is_mul;

/// The `n` lowest bits set, for `n <= 31`.
pub open spec fn low_mask(n: u32) -> u32 {
    ((1u32 << n) - 1) as u32
}

/// The `n` bits of `w` that sit `sh` bits above the least significant end.
spec fn word_bits(w: u32, sh: u32, n: u32) -> u32 {
    (w >> sh) & low_mask(n)
}

/// `w` with the `n` bits `sh` above the least significant end replaced by
/// `v`: the old bits are cleared by the shifted mask, the new ones or-ed in.
spec fn word_write(w: u32, v: u32, sh: u32, n: u32) -> u32 {
    ((w ^ (low_mask(n) << sh)) & w) | (v << sh)
}

/// Shift distance of the value stored at global bit offset `p` with width
/// `n`: offsets count from the most significant end of each 32-bit word.
spec fn shift_of(p: int, n: int) -> u32 {
    (32 - p % 32 - n) as u32
}

/// The value of the `n` bits at global bit offset `p`, all inside one word.
spec fn bits_at(words: Seq<u32>, p: int, n: int) -> u32 {
    word_bits(words[p / 32], shift_of(p, n), n as u32)
}

/// The value of slot `i` among slots of width `bpv`: its bits start at
/// offset `i * bpv` and are split over two words when they cross a word
/// boundary, upper bits first.
spec fn slot_value(words: Seq<u32>, bpv: int, i: int) -> u32 {
    let p = i * bpv;
    let off = p % 32;
    if off + bpv <= 32 {
        bits_at(words, p, bpv)
    } else {
        let rem = 32 - off;
        let left = bpv - rem;
        (bits_at(words, p, rem) << (left as u32)) | bits_at(words, p + rem, left)
    }
}

/// How many 32-bit words hold `nbits` bits.
spec fn spec_blocks(nbits: int) -> int {
    if nbits % 32 == 0 {
        nbits / 32
    } else {
        nbits / 32 + 1
    }
}

/// The number of bits needed to store `x`: the position of its highest set
/// bit, and 0 for `x == 0`.
pub open spec fn spec_bit_len(x: u32) -> nat
    decreases x,
{
    if x == 0 {
        0
    } else {
        1 + spec_bit_len(x / 2)
    }
}

/// A `ValueVec` is a bit vector that holds fixed sized unsigned integer
/// values.
pub struct ValueVec {
    bits_per_val: usize,
    mask: u32,
    nbits: usize,
    words: Vec<u32>,
}

impl View for ValueVec {
    type V = Seq<u32>;

    /// The stored values, one per slot.
    closed spec fn view(&self) -> Seq<u32> {
        Seq::new(
            (self.nbits / self.bits_per_val) as nat,
            |i: int| slot_value(self.words@, self.bits_per_val as int, i),
        )
    }
}

impl ValueVec {
    /// The store is well formed: the value width is between 1 and 31 bits,
    /// the mask matches the width, and the word array holds exactly the
    /// declared number of bits, a whole number of slots.
    pub closed spec fn wf(&self) -> bool {
        &&& 1 <= self.bits_per_val <= 31
        &&& self.mask == low_mask(self.bits_per_val as u32)
        &&& self.nbits % self.bits_per_val == 0
        &&& self.words@.len() == spec_blocks(self.nbits as int)
    }

    /// How many bits each value occupies.
    pub closed spec fn spec_bits_per_val(&self) -> usize {
        self.bits_per_val
    }

    /// The largest value a slot can hold.
    pub closed spec fn spec_max_value(&self) -> u32 {
        self.mask
    }

    /// The total number of bits of the store.
    pub closed spec fn spec_len_bits(&self) -> usize {
        self.nbits
    }
}

/// The bits `1 << n` for `n <= 31`, with its bounds.
proof fn lemma_shl_one_bounds(n: u32)
    by (bit_vector)
    requires
        n <= 31,
    ensures
        1u32 << n >= 1,
        1u32 << n <= 0x8000_0000u32,
        low_mask(n) == (1u32 << n) - 1,
{
}

/// The mask of `n` bits is `pow2(n) - 1`.
proof fn lemma_low_mask_pow2(n: u32)
    requires
        n <= 31,
    ensures
        low_mask(n) as int == pow2(n as nat) - 1,
{
    lemma2_to64();
    if n < 31 {
        lemma_pow2_strictly_increases(n as nat, 31);
    }
    lemma_u32_shl_is_mul(1u32, n);
    lemma_shl_one_bounds(n);
}

/// Extracting through a shifted mask equals masking a shifted word.
proof fn lemma_extract_via_mask(w: u32, m: u32, s: u32)
    by (bit_vector)
    ensures
        ((w & (m << s)) >> s) == (w >> s) & m,
{
}

/// An extracted field never exceeds its mask.
proof fn lemma_word_bits_bound(w: u32, sh: u32, n: u32)
    by (bit_vector)
    ensures
        word_bits(w, sh, n) <= low_mask(n),
{
}

/// A field of a zero word is zero, and composing zeros gives zero.
proof fn lemma_zero_word_bits(sh: u32, n: u32, left: u32)
    by (bit_vector)
    ensures
        word_bits(0u32, sh, n) == 0u32,
        (0u32 << left) | 0u32 == 0u32,
{
}

/// Writing a field and reading it back yields the written value.
proof fn lemma_word_write_read(w: u32, v: u32, sh: u32, n: u32)
    by (bit_vector)
    requires
        1 <= n <= 31,
        sh + n <= 32,
        v <= low_mask(n),
    ensures
        word_bits(word_write(w, v, sh, n), sh, n) == v,
{
}

/// Writing a field leaves every disjoint field of the same word unchanged.
proof fn lemma_word_write_frame(w: u32, v: u32, sh: u32, n: u32, sh2: u32, n2: u32)
    by (bit_vector)
    requires
        1 <= n <= 31,
        1 <= n2 <= 31,
        sh + n <= 32,
        sh2 + n2 <= 32,
        v <= low_mask(n),
        sh + n <= sh2 || sh2 + n2 <= sh,
    ensures
        word_bits(word_write(w, v, sh, n), sh2, n2) == word_bits(w, sh2, n2),
{
}

/// Splitting a value of `n` bits into its high `n - left` bits and its low
/// `left` bits and recombining them gives the value back.
proof fn lemma_split_value(v: u32, n: u32, left: u32)
    by (bit_vector)
    requires
        1 <= left < n <= 31,
        v <= low_mask(n),
    ensures
        v >> left <= low_mask((n - left) as u32),
        v & low_mask(left) <= low_mask(left),
        ((v >> left) << left) | (v & low_mask(left)) == v,
{
}

/// Composing a high part and a low part stays within the combined mask.
proof fn lemma_compose_bound(hi: u32, lo: u32, rem: u32, left: u32)
    by (bit_vector)
    requires
        1 <= rem,
        1 <= left,
        rem + left <= 31,
        hi <= low_mask(rem),
        lo <= low_mask(left),
    ensures
        ((hi << left) | lo) <= low_mask((rem + left) as u32),
{
}

/// Every bit position below `nbits` lies in a word below `spec_blocks(nbits)`.
proof fn lemma_block_in_range(nbits: int, pos: int)
    requires
        0 <= pos < nbits,
    ensures
        0 <= pos / 32 < spec_blocks(nbits),
{
    lemma_fundamental_div_mod(pos, 32);
    lemma_fundamental_div_mod(nbits, 32);
}

/// The bit range of slot `i` lies below `nbits`.
proof fn lemma_slot_in_range(nbits: int, bpv: int, i: int)
    requires
        1 <= bpv,
        0 <= i < nbits / bpv,
    ensures
        0 <= i * bpv,
        i * bpv + bpv <= nbits,
{
    lemma_mul_inequality(i + 1, nbits / bpv, bpv);
    lemma_fundamental_div_mod(nbits, bpv);
    assert((i + 1) * bpv == i * bpv + bpv) by (nonlinear_arith);
    assert(i * bpv >= 0) by (nonlinear_arith)
        requires
            i >= 0 && bpv >= 1,
    ;
}

/// Slots with distinct indices occupy disjoint bit ranges.
proof fn lemma_slots_disjoint(bpv: int, i: int, j: int)
    requires
        1 <= bpv,
        0 <= j < i,
    ensures
        j * bpv + bpv <= i * bpv,
{
    lemma_mul_inequality(j + 1, i, bpv);
    assert((j + 1) * bpv == j * bpv + bpv) by (nonlinear_arith);
}

/// A field read from a range disjoint from a written range is unchanged,
/// whether or not the two ranges share a word.
proof fn lemma_bits_at_after_write(words: Seq<u32>, wi: int, wn: int, v: u32, q: int, qn: int, nbits: int)
    requires
        1 <= wn <= 31,
        1 <= qn <= 31,
        0 <= wi,
        wi % 32 + wn <= 32,
        wi + wn <= nbits,
        0 <= q,
        q % 32 + qn <= 32,
        q + qn <= nbits,
        q + qn <= wi || wi + wn <= q,
        v <= low_mask(wn as u32),
        words.len() == spec_blocks(nbits),
    ensures
        bits_at(
            words.update(wi / 32, word_write(words[wi / 32], v, shift_of(wi, wn), wn as u32)),
            q,
            qn,
        ) == bits_at(words, q, qn),
{
    lemma_block_in_range(nbits, wi);
    lemma_block_in_range(nbits, q);
    if q / 32 == wi / 32 {
        lemma_fundamental_div_mod(q, 32);
        lemma_fundamental_div_mod(wi, 32);
        assert(shift_of(wi, wn) + wn <= shift_of(q, qn) || shift_of(q, qn) + qn <= shift_of(
            wi,
            wn,
        ));
        lemma_word_write_frame(
            words[wi / 32],
            v,
            shift_of(wi, wn),
            wn as u32,
            shift_of(q, qn),
            qn as u32,
        );
    }
}

/// Reading back the field just written yields the written value.
proof fn lemma_bits_at_after_write_same(words: Seq<u32>, wi: int, wn: int, v: u32, nbits: int)
    requires
        1 <= wn <= 31,
        0 <= wi,
        wi % 32 + wn <= 32,
        wi + wn <= nbits,
        v <= low_mask(wn as u32),
        words.len() == spec_blocks(nbits),
    ensures
        bits_at(
            words.update(wi / 32, word_write(words[wi / 32], v, shift_of(wi, wn), wn as u32)),
            wi,
            wn,
        ) == v,
{
    lemma_block_in_range(nbits, wi);
    lemma_word_write_read(words[wi / 32], v, shift_of(wi, wn), wn as u32);
}

/// Every slot of an all-zero word array holds the value zero.
proof fn lemma_zero_words_slots(words: Seq<u32>, bpv: int, nbits: int)
    requires
        1 <= bpv <= 31,
        nbits % bpv == 0,
        words.len() == spec_blocks(nbits),
        forall|k: int| 0 <= k < words.len() ==> words[k] == 0u32,
    ensures
        forall|i: int| 0 <= i < nbits / bpv ==> slot_value(words, bpv, i) == 0u32,
{
    assert forall|i: int| 0 <= i < nbits / bpv implies slot_value(words, bpv, i) == 0u32 by {
        lemma_slot_in_range(nbits, bpv, i);
        let p = i * bpv;
        let off = p % 32;
        lemma_block_in_range(nbits, p);
        if off + bpv <= 32 {
            lemma_zero_word_bits(shift_of(p, bpv), bpv as u32, 0u32);
        } else {
            let rem = 32 - off;
            let left = bpv - rem;
            lemma_block_in_range(nbits, p + rem);
            lemma_zero_word_bits(shift_of(p, rem), rem as u32, left as u32);
            lemma_zero_word_bits(shift_of(p + rem, left), left as u32, left as u32);
        }
    }
}

/// `spec_bit_len(x) <= k` whenever `x < pow2(k)`.
proof fn lemma_bit_len_bound(x: u32, k: nat)
    requires
        x < pow2(k),
    ensures
        spec_bit_len(x) <= k,
    decreases k,
{
    if x > 0 {
        lemma2_to64();
        assert(k > 0);
        vstd::arithmetic::power2::lemma_pow2_unfold(k);
        lemma_bit_len_bound(x / 2, (k - 1) as nat);
    }
}

/// A value always fits in `spec_bit_len` of it many bits.
proof fn lemma_bit_len_fits(x: u32)
    ensures
        x as int <= pow2(spec_bit_len(x) as nat) - 1,
    decreases x,
{
    if x == 0 {
        lemma2_to64();
    } else {
        lemma_bit_len_fits(x / 2);
        vstd::arithmetic::power2::lemma_pow2_unfold(spec_bit_len(x) as nat);
    }
}

impl ValueVec {
    /// Create a `ValueVec` that holds values of `bits_per_val` bits each and
    /// space for `count` values, all starting at zero.
    pub fn new(bits_per_val: usize, count: usize) -> (r: ValueVec)
        requires
            1 <= bits_per_val <= 31,
            bits_per_val * count <= usize::MAX,
        ensures
            r.wf(),
            r@ == Seq::new(count as nat, |i: int| 0u32),
            r.spec_bits_per_val() == bits_per_val,
            r.spec_max_value() == low_mask(bits_per_val as u32),
            r.spec_max_value() as int == pow2(bits_per_val as nat) - 1,
            r.spec_len_bits() == bits_per_val * count,
    {
        proof {
            assert(bits_per_val * count >= 0) by (nonlinear_arith)
                requires
                    bits_per_val >= 1 && count >= 0,
            ;
        }
        let bits: usize = bits_per_val * count;
        let nblocks: usize = if bits % 32 == 0 {
            bits / 32
        } else {
            bits / 32 + 1
        };
        let mut words: Vec<u32> = Vec::new();
        while words.len() < nblocks
            invariant
                words@.len() <= nblocks,
                forall|k: int| 0 <= k < words@.len() ==> words@[k] == 0u32,
            decreases nblocks - words@.len(),
        {
            words.push(0u32);
        }
        proof {
            lemma_shl_one_bounds(bits_per_val as u32);
            lemma_low_mask_pow2(bits_per_val as u32);
        }
        let mask: u32 = (1u32 << (bits_per_val as u32)) - 1;
        let r = ValueVec { bits_per_val, mask, nbits: bits, words };
        proof {
            assert(bits as int % bits_per_val as int == 0) by (nonlinear_arith)
                requires
                    bits == bits_per_val * count && bits_per_val >= 1,
            ;
            assert(bits as int / bits_per_val as int == count) by (nonlinear_arith)
                requires
                    bits == bits_per_val * count && bits_per_val >= 1,
            ;
            lemma_zero_words_slots(r.words@, bits_per_val as int, bits as int);
            assert(r@ =~= Seq::new(count as nat, |i: int| 0u32));
        }
        r
    }

    /// Create a `ValueVec` with space for `count` values, where each slot can
    /// hold at least `max_val`.  A zero maximum would leave every slot with
    /// zero bits, so it is rejected here rather than deferred to `set`.
    pub fn with_max(max_val: u32, count: usize) -> (r: ValueVec)
        requires
            1 <= max_val <= 0x7fff_ffffu32,
            spec_bit_len(max_val) * count <= usize::MAX,
        ensures
            r.wf(),
            r@ == Seq::new(count as nat, |i: int| 0u32),
            r.spec_bits_per_val() == spec_bit_len(max_val),
            r.spec_max_value() == low_mask(spec_bit_len(max_val) as u32),
            max_val <= r.spec_max_value(),
    {
        let bits_per_val: usize = bit_len(max_val);
        proof {
            lemma2_to64();
            lemma_bit_len_bound(max_val, 31);
            lemma_bit_len_fits(max_val);
            lemma_low_mask_pow2(bits_per_val as u32);
        }
        ValueVec::new(bits_per_val, count)
    }

    /// How many bits this `ValueVec` is using to store each value.
    pub fn bits_per_val(&self) -> (r: usize)
        requires
            self.wf(),
        ensures
            r == self.spec_bits_per_val(),
    {
        self.bits_per_val
    }

    /// The maximum value this `ValueVec` can hold per entry:
    /// `pow2(bits_per_val) - 1`.
    pub fn max_value(&self) -> (r: u32)
        requires
            self.wf(),
        ensures
            r == self.spec_max_value(),
            r as int == pow2(self.spec_bits_per_val() as nat) - 1,
    {
        proof {
            lemma_low_mask_pow2(self.bits_per_val as u32);
        }
        self.mask
    }

    /// Get the total number of bits this `ValueVec` is using.
    pub fn len(&self) -> (r: usize)
        requires
            self.wf(),
        ensures
            r == self.spec_len_bits(),
            r as int == self@.len() * self.spec_bits_per_val() as int,
    {
        proof {
            lemma_fundamental_div_mod(self.nbits as int, self.bits_per_val as int);
            vstd::arithmetic::mul::lemma_mul_is_commutative(
                self.bits_per_val as int,
                self.nbits as int / self.bits_per_val as int,
            );
        }
        self.nbits
    }

    /// Reset all values to 0, keeping the dimensions.
    pub fn clear(&mut self)
        requires
            old(self).wf(),
        ensures
            final(self).wf(),
            final(self)@ == Seq::new(old(self)@.len(), |i: int| 0u32),
            final(self).spec_bits_per_val() == old(self).spec_bits_per_val(),
            final(self).spec_max_value() == old(self).spec_max_value(),
            final(self).spec_len_bits() == old(self).spec_len_bits(),
    {
        let n: usize = self.words.len();
        let mut k: usize = 0;
        while k < n
            invariant
                k <= n,
                self.words@.len() == n,
                self.bits_per_val == old(self).bits_per_val,
                self.mask == old(self).mask,
                self.nbits == old(self).nbits,
                forall|t: int| 0 <= t < k ==> self.words@[t] == 0u32,
            decreases n - k,
        {
            self.words[k] = 0u32;
            k = k + 1;
        }
        proof {
            lemma_zero_words_slots(self.words@, self.bits_per_val as int, self.nbits as int);
            assert(self@ =~= Seq::new(old(self)@.len(), |i: int| 0u32));
        }
    }

    /// Read `num_bits` bits at global bit offset `idx`, all within one word.
    fn get_bits(&self, idx: usize, num_bits: usize) -> (r: u32)
        requires
            self.wf(),
            1 <= num_bits <= self.spec_bits_per_val(),
            idx % 32 + num_bits <= 32,
            idx + num_bits <= self.spec_len_bits(),
        ensures
            r == bits_at(self.words@, idx as int, num_bits as int),
    {
        proof {
            lemma_block_in_range(self.nbits as int, idx as int);
            lemma_shl_one_bounds(num_bits as u32);
        }
        let shift: usize = 32 - idx % 32 - num_bits;
        let mask: u32 = if num_bits == self.bits_per_val {
            self.mask
        } else {
            (1u32 << (num_bits as u32)) - 1
        };
        let block: u32 = self.words[idx / 32];
        let val: u32 = block & (mask << (shift as u32));
        proof {
            lemma_extract_via_mask(block, mask, shift as u32);
        }
        val >> (shift as u32)
    }

    /// Write `val` into the `num_bits` bits at global bit offset `idx`, all
    /// within one word, clearing exactly that bit range first.
    fn set_bits(&mut self, idx: usize, val: u32, num_bits: usize)
        requires
            old(self).wf(),
            1 <= num_bits <= old(self).spec_bits_per_val(),
            idx % 32 + num_bits <= 32,
            idx + num_bits <= old(self).spec_len_bits(),
            val <= low_mask(num_bits as u32),
        ensures
            final(self).wf(),
            final(self).spec_bits_per_val() == old(self).spec_bits_per_val(),
            final(self).spec_max_value() == old(self).spec_max_value(),
            final(self).spec_len_bits() == old(self).spec_len_bits(),
            final(self).words@ == old(self).words@.update(
                idx as int / 32,
                word_write(
                    old(self).words@[idx as int / 32],
                    val,
                    shift_of(idx as int, num_bits as int),
                    num_bits as u32,
                ),
            ),
    {
        proof {
            lemma_block_in_range(self.nbits as int, idx as int);
            lemma_shl_one_bounds(num_bits as u32);
        }
        let blockidx: usize = idx / 32;
        let shift: usize = 32 - idx % 32 - num_bits;
        let mask: u32 = (if num_bits == self.bits_per_val {
            self.mask
        } else {
            (1u32 << (num_bits as u32)) - 1
        }) << (shift as u32);
        let block: u32 = self.words[blockidx];
        let zeroed: u32 = (block ^ mask) & block;
        self.words[blockidx] = zeroed | (val << (shift as u32));
    }

    /// Get the value stored at index `i`.
    pub fn get(&self, i: usize) -> (r: u32)
        requires
            self.wf(),
            i < self@.len(),
        ensures
            r == self@[i as int],
    {
        proof {
            lemma_slot_in_range(self.nbits as int, self.bits_per_val as int, i as int);
        }
        let idx: usize = i * self.bits_per_val;
        let rem: usize = 32 - idx % 32;
        if rem < self.bits_per_val {
            let lower: u32 = self.get_bits(idx, rem);
            let left: usize = self.bits_per_val - rem;
            proof {
                lemma_fundamental_div_mod(idx as int, 32);
            }
            let upper: u32 = self.get_bits(idx + rem, left);
            (lower << (left as u32)) | upper
        } else {
            self.get_bits(idx, self.bits_per_val)
        }
    }

    /// Set the value at index `i` to `val`.  A value above `max_value` does
    /// not fit in a slot and is excluded by the precondition.
    pub fn set(&mut self, i: usize, val: u32)
        requires
            old(self).wf(),
            i < old(self)@.len(),
            val <= old(self).spec_max_value(),
        ensures
            final(self).wf(),
            final(self)@ == old(self)@.update(i as int, val),
            final(self).spec_bits_per_val() == old(self).spec_bits_per_val(),
            final(self).spec_max_value() == old(self).spec_max_value(),
            final(self).spec_len_bits() == old(self).spec_len_bits(),
    {
        proof {
            lemma_slot_in_range(self.nbits as int, self.bits_per_val as int, i as int);
        }
        let ghost old_words = self.words@;
        let ghost bpv = self.bits_per_val as int;
        let ghost nbits = self.nbits as int;
        let idx: usize = i * self.bits_per_val;
        let rem: usize = 32 - idx % 32;
        if rem < self.bits_per_val {
            let left: usize = self.bits_per_val - rem;
            proof {
                lemma_shl_one_bounds(left as u32);
                lemma_split_value(val, self.bits_per_val as u32, left as u32);
                lemma_fundamental_div_mod(idx as int, 32);
            }
            let lowerval: u32 = val >> (left as u32);
            self.set_bits(idx, lowerval, rem);
            let upval: u32 = val & ((1u32 << (left as u32)) - 1);
            self.set_bits(idx + rem, upval, left);
            proof {
                self.lemma_set_split(old_words, i as int, idx as int, rem as int, left as int, val);
            }
        } else {
            let vs: usize = self.bits_per_val;
            self.set_bits(idx, val, vs);
            proof {
                self.lemma_set_single(old_words, i as int, idx as int, val);
            }
        }
    }

    /// After a single-word write of slot `i`, the view is the old view with
    /// slot `i` updated and every other slot untouched.
    proof fn lemma_set_single(&self, old_words: Seq<u32>, i: int, idx: int, val: u32)
        requires
            self.wf(),
            0 <= i < self.nbits as int / self.bits_per_val as int,
            idx == i * self.bits_per_val as int,
            idx % 32 + self.bits_per_val as int <= 32,
            val <= low_mask(self.bits_per_val as u32),
            old_words.len() == spec_blocks(self.nbits as int),
            self.words@ == old_words.update(
                idx / 32,
                word_write(
                    old_words[idx / 32],
                    val,
                    shift_of(idx, self.bits_per_val as int),
                    self.bits_per_val as u32,
                ),
            ),
        ensures
            self@ == Seq::new(
                (self.nbits / self.bits_per_val) as nat,
                |j: int| slot_value(old_words, self.bits_per_val as int, j),
            ).update(i, val),
    {
        let bpv = self.bits_per_val as int;
        let nbits = self.nbits as int;
        lemma_slot_in_range(nbits, bpv, i);
        lemma_bits_at_after_write_same(old_words, idx, bpv, val, nbits);
        assert forall|j: int| 0 <= j < nbits / bpv && j != i implies slot_value(
            self.words@,
            bpv,
            j,
        ) == slot_value(old_words, bpv, j) by {
            if j < i {
                lemma_slots_disjoint(bpv, i, j);
            } else {
                lemma_slots_disjoint(bpv, j, i);
            }
            self.lemma_frame_slot(old_words, idx, bpv, val, j);
        }
        assert(self@ =~= Seq::new(
            (self.nbits / self.bits_per_val) as nat,
            |j: int| slot_value(old_words, bpv, j),
        ).update(i, val));
    }

    /// After the two-word write of a slot that straddles a word boundary,
    /// the view is the old view with slot `i` updated and every other slot
    /// untouched.
    proof fn lemma_set_split(
        &self,
        old_words: Seq<u32>,
        i: int,
        idx: int,
        rem: int,
        left: int,
        val: u32,
    )
        requires
            self.wf(),
            0 <= i < self.nbits as int / self.bits_per_val as int,
            idx == i * self.bits_per_val as int,
            rem == 32 - idx % 32,
            rem < self.bits_per_val as int,
            left == self.bits_per_val as int - rem,
            val <= low_mask(self.bits_per_val as u32),
            old_words.len() == spec_blocks(self.nbits as int),
            self.words@ == mid_words(old_words, idx, rem, val >> (left as u32)).update(
                (idx + rem) / 32,
                word_write(
                    mid_words(old_words, idx, rem, val >> (left as u32))[(idx + rem) / 32],
                    val & low_mask(left as u32),
                    shift_of(idx + rem, left),
                    left as u32,
                ),
            ),
        ensures
            self@ == Seq::new(
                (self.nbits / self.bits_per_val) as nat,
                |j: int| slot_value(old_words, self.bits_per_val as int, j),
            ).update(i, val),
    {
        let bpv = self.bits_per_val as int;
        let nbits = self.nbits as int;
        lemma_slot_in_range(nbits, bpv, i);
        lemma_fundamental_div_mod(idx, 32);
        lemma_split_value(val, bpv as u32, left as u32);
        let lowerval: u32 = val >> (left as u32);
        let upval = val & low_mask(left as u32);
        let mid = mid_words(old_words, idx, rem, lowerval);
        // The high part of slot `i`, written first, survives the second write.
        lemma_bits_at_after_write_same(old_words, idx, rem, lowerval, nbits);
        lemma_bits_at_after_write(mid, idx + rem, left, upval, idx, rem, nbits);
        // The low part is exactly the second write.
        lemma_bits_at_after_write_same(mid, idx + rem, left, upval, nbits);
        assert(slot_value(self.words@, bpv, i) == ((lowerval << (left as u32)) | upval));
        assert(slot_value(self.words@, bpv, i) == val);
        assert forall|j: int| 0 <= j < nbits / bpv && j != i implies slot_value(
            self.words@,
            bpv,
            j,
        ) == slot_value(old_words, bpv, j) by {
            lemma_slot_in_range(nbits, bpv, j);
            let q = j * bpv;
            if j < i {
                lemma_slots_disjoint(bpv, i, j);
            } else {
                lemma_slots_disjoint(bpv, j, i);
            }
            let qoff = q % 32;
            if qoff + bpv <= 32 {
                lemma_bits_at_after_write(old_words, idx, rem, lowerval, q, bpv, nbits);
                lemma_bits_at_after_write(mid, idx + rem, left, upval, q, bpv, nbits);
            } else {
                let qrem = 32 - qoff;
                let qleft = bpv - qrem;
                lemma_fundamental_div_mod(q, 32);
                lemma_bits_at_after_write(old_words, idx, rem, lowerval, q, qrem, nbits);
                lemma_bits_at_after_write(mid, idx + rem, left, upval, q, qrem, nbits);
                lemma_bits_at_after_write(old_words, idx, rem, lowerval, q + qrem, qleft, nbits);
                lemma_bits_at_after_write(mid, idx + rem, left, upval, q + qrem, qleft, nbits);
            }
        }
        assert(self@ =~= Seq::new(
            (self.nbits / self.bits_per_val) as nat,
            |j: int| slot_value(old_words, bpv, j),
        ).update(i, val));
    }

    /// A slot whose bit range is disjoint from a single written range reads
    /// the same value as before the write.
    proof fn lemma_frame_slot(&self, old_words: Seq<u32>, wi: int, wn: int, v: u32, j: int)
        requires
            self.wf(),
            0 <= j < self.nbits as int / self.bits_per_val as int,
            1 <= wn <= 31,
            0 <= wi,
            wi % 32 + wn <= 32,
            wi + wn <= self.nbits as int,
            v <= low_mask(wn as u32),
            old_words.len() == spec_blocks(self.nbits as int),
            j * self.bits_per_val as int + self.bits_per_val as int <= wi || wi + wn <= j
                * self.bits_per_val as int,
            self.words@ == old_words.update(
                wi / 32,
                word_write(old_words[wi / 32], v, shift_of(wi, wn), wn as u32),
            ),
        ensures
            slot_value(self.words@, self.bits_per_val as int, j) == slot_value(
                old_words,
                self.bits_per_val as int,
                j,
            ),
    {
        let bpv = self.bits_per_val as int;
        let nbits = self.nbits as int;
        lemma_slot_in_range(nbits, bpv, j);
        let q = j * bpv;
        let qoff = q % 32;
        if qoff + bpv <= 32 {
            lemma_bits_at_after_write(old_words, wi, wn, v, q, bpv, nbits);
        } else {
            let qrem = 32 - qoff;
            let qleft = bpv - qrem;
            lemma_fundamental_div_mod(q, 32);
            lemma_bits_at_after_write(old_words, wi, wn, v, q, qrem, nbits);
            lemma_bits_at_after_write(old_words, wi, wn, v, q + qrem, qleft, nbits);
        }
    }

    /// Every stored value is at most the maximum value.
    pub proof fn lemma_values_bounded(&self)
        requires
            self.wf(),
        ensures
            forall|i: int| 0 <= i < self@.len() ==> self@[i] <= self.spec_max_value(),
    {
        let bpv = self.bits_per_val as int;
        let nbits = self.nbits as int;
        assert forall|i: int| 0 <= i < self@.len() implies self@[i] <= self.spec_max_value() by {
            lemma_slot_in_range(nbits, bpv, i);
            let p = i * bpv;
            let off = p % 32;
            if off + bpv <= 32 {
                lemma_word_bits_bound(self.words@[p / 32], shift_of(p, bpv), bpv as u32);
            } else {
                let rem = 32 - off;
                let left = bpv - rem;
                lemma_word_bits_bound(self.words@[p / 32], shift_of(p, rem), rem as u32);
                lemma_word_bits_bound(self.words@[(p + rem) / 32], shift_of(p + rem, left), left as u32);
                lemma_compose_bound(
                    bits_at(self.words@, p, rem),
                    bits_at(self.words@, p + rem, left),
                    rem as u32,
                    left as u32,
                );
            }
        }
    }

    /// The maximum value is positive, below `u32::MAX`, and equals
    /// `pow2(bits_per_val) - 1`.
    pub proof fn lemma_max_value_pow2(&self)
        requires
            self.wf(),
        ensures
            self.spec_max_value() as int == pow2(self.spec_bits_per_val() as nat) - 1,
            1 <= self.spec_max_value() <= 0x7fff_ffffu32,
    {
        lemma_low_mask_pow2(self.bits_per_val as u32);
        lemma2_to64();
        if (self.bits_per_val as nat) > 1 {
            lemma_pow2_strictly_increases(1, self.bits_per_val as nat);
        }
        if (self.bits_per_val as nat) < 31 {
            lemma_pow2_strictly_increases(self.bits_per_val as nat, 31);
        }
    }
}

/// The word array after the first, high-part write of a straddling slot.
spec fn mid_words(words: Seq<u32>, idx: int, rem: int, lowerval: u32) -> Seq<u32> {
    words.update(
        idx / 32,
        word_write(words[idx / 32], lowerval, shift_of(idx, rem), rem as u32),
    )
}

/// The number of bits needed to hold values up to and including `max`.
pub(crate) fn bit_len(max: u32) -> (r: usize)
    ensures
        r == spec_bit_len(max),
        r <= 32,
{
    proof {
        lemma2_to64();
        lemma_bit_len_bound(max, 32);
    }
    let mut bits: usize = 0;
    let mut cur: u32 = max;
    while cur > 0
        invariant
            bits + spec_bit_len(cur) == spec_bit_len(max),
            spec_bit_len(max) <= 32,
        decreases cur,
    {
        proof {
            assert(cur >> 1u32 == cur / 2) by (bit_vector);
        }
        bits = bits + 1;
        cur = cur >> 1u32;
    }
    bits
}

} // verus!
