//! Hashing utilities: a seeded byte hasher and the double-hashing probe
//! sequence that turns two base hashes into any number of probe values.

use vstd::prelude::*;

verus! {

/// Multiplier of the byte absorption step (the 64-bit FNV prime).
const ABSORB_PRIME: u64 = 0x100000001b3;

/// Initial absorption state, mixed with the seed (the 64-bit FNV basis).
const ABSORB_BASIS: u64 = 0xcbf29ce484222325;

/// First multiplier of the finalization mix.
const MIX_MULTIPLIER_ONE: u64 = 0xff51afd7ed558ccd;

/// Second multiplier of the finalization mix.
const MIX_MULTIPLIER_TWO: u64 = 0xc4ceb9fe1a85ec53;

/// One absorption step: fold one byte into the running state.
pub closed spec fn absorb_step(acc: u64, byte: u8) -> u64 {
    (acc ^ byte as u64).wrapping_mul(ABSORB_PRIME)
}

/// Fold a whole byte string into the running state, first byte first.
pub closed spec fn absorb(acc: u64, data: Seq<u8>) -> u64
    decreases data.len(),
{
    if data.len() == 0 {
        acc
    } else {
        absorb_step(absorb(acc, data.drop_last()), data.last())
    }
}

/// Finalization mix: spread every input bit over the whole output word.
pub closed spec fn finalize_mix(h: u64) -> u64 {
    let a = (h ^ (h >> 33u64)).wrapping_mul(MIX_MULTIPLIER_ONE);
    let b: u64 = (a ^ (a >> 33u64)).wrapping_mul(MIX_MULTIPLIER_TWO);
    b ^ (b >> 33u64)
}

/// The hash of a byte string under a 64-bit seed.  A function of the seed
/// and the bytes alone: hashing the same bytes under the same seed always
/// yields the same value.
pub closed spec fn seeded_hash(seed: u64, data: Seq<u8>) -> u64 {
    finalize_mix(absorb(seed ^ ABSORB_BASIS, data))
}

/// Probe `i` of the double-hashing scheme: probe 0 is the first base hash,
/// probe 1 the second, and every later probe `i` is `(h1 + i) * h2` with
/// wraparound 64-bit arithmetic.
pub open spec fn probe_value(h1: u64, h2: u64, i: int) -> u64 {
    if i == 0 {
        h1
    } else if i == 1 {
        h2
    } else {
        h1.wrapping_add(i as u64).wrapping_mul(h2)
    }
}

/// A hash function instance, determined by its 64-bit seed.  Two instances
/// with independent seeds provide the two independent hash computations a
/// filter needs; the view of an instance is its seed.
#[derive(Clone, Copy)]
pub struct SeededHasher {
    seed: u64,
}

impl View for SeededHasher {
    type V = u64;

    closed spec fn view(&self) -> u64 {
        self.seed
    }
}

impl SeededHasher {
    /// A hasher with the given seed.
    pub fn new(seed: u64) -> (r: SeededHasher)
        ensures
            r@ == seed,
    {
        SeededHasher { seed }
    }

    /// A hasher with a seed drawn freshly at random, so that distinct
    /// instances are unlikely to agree.
    pub fn from_entropy() -> (r: SeededHasher) {
        SeededHasher { seed: random_seed() }
    }

    /// Hash a byte string with this instance.
    pub fn hash_bytes(&self, data: &[u8]) -> (r: u64)
        ensures
            r == seeded_hash(self@, data@),
    {
        let len: usize = data.len();
        let mut acc: u64 = self.seed ^ ABSORB_BASIS;
        let mut i: usize = 0;
        while i < len
            invariant
                i <= len,
                len == data@.len(),
                acc == absorb(self.seed ^ ABSORB_BASIS, data@.take(i as int)),
            decreases len - i,
        {
            proof {
                assert(data@.take(i + 1 as int).drop_last() =~= data@.take(i as int));
                assert(data@.take(i + 1 as int).last() == data@[i as int]);
            }
            acc = (acc ^ data[i] as u64).wrapping_mul(ABSORB_PRIME);
            i = i + 1;
        }
        proof {
            assert(data@.take(len as int) =~= data@);
        }
        let a: u64 = (acc ^ (acc >> 33u64)).wrapping_mul(MIX_MULTIPLIER_ONE);
        let b: u64 = (a ^ (a >> 33u64)).wrapping_mul(MIX_MULTIPLIER_TWO);
        b ^ (b >> 33u64)
    }
}

/// Relies on rand::random: a fresh pseudo random 64-bit seed.  Nothing is
/// assumed about the value.
#[verifier::external_body]
fn random_seed() -> u64 {
    rand::random::<u64>()
}

/// The double-hashing probe sequence for one item: exactly `count` 64-bit
/// values derived from the two base hashes, handed out one by one.  Callers
/// reduce each value modulo their own slot count.
pub struct HashIter {
    h1: u64,
    h2: u64,
    i: u32,
    count: u32,
}

impl HashIter {
    /// The first base hash.
    pub closed spec fn base_one(&self) -> u64 {
        self.h1
    }

    /// The second base hash.
    pub closed spec fn base_two(&self) -> u64 {
        self.h2
    }

    /// How many probes have been handed out already.
    pub closed spec fn cursor(&self) -> int {
        self.i as int
    }

    /// How many probes the sequence holds in total.
    pub closed spec fn total(&self) -> int {
        self.count as int
    }

    /// The probe sequence for `item`: the two base hashes are computed once,
    /// with the two given hashers.
    pub fn from(item: &[u8], count: u32, hasher_one: &SeededHasher, hasher_two: &SeededHasher) -> (r:
        HashIter)
        ensures
            r.base_one() == seeded_hash(hasher_one@, item@),
            r.base_two() == seeded_hash(hasher_two@, item@),
            r.cursor() == 0,
            r.total() == count as int,
    {
        let h1: u64 = hasher_one.hash_bytes(item);
        let h2: u64 = hasher_two.hash_bytes(item);
        HashIter { h1, h2, i: 0, count }
    }

    /// The next probe value, or `None` once `total` probes have been handed
    /// out.
    pub fn next(&mut self) -> (r: Option<u64>)
        ensures
            final(self).base_one() == old(self).base_one(),
            final(self).base_two() == old(self).base_two(),
            final(self).total() == old(self).total(),
            old(self).cursor() < old(self).total() ==> {
                &&& final(self).cursor() == old(self).cursor() + 1
                &&& r == Some(
                    probe_value(old(self).base_one(), old(self).base_two(), old(self).cursor()),
                )
            },
            old(self).cursor() >= old(self).total() ==> {
                &&& final(self).cursor() == old(self).cursor()
                &&& r is None
            },
    {
        if self.i >= self.count {
            return None;
        }
        let r: u64 = if self.i == 0 {
            self.h1
        } else if self.i == 1 {
            self.h2
        } else {
            self.h1.wrapping_add(self.i as u64).wrapping_mul(self.h2)
        };
        self.i = self.i + 1;
        Some(r)
    }
}

} // verus!
