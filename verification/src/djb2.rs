//! Basic djb2 hashing: the classic multiply-by-33-and-add byte hash.

use vstd::prelude::*;

verus! {

/// One djb2 step: multiply the state by 33 and add the next byte, with
/// wraparound 64-bit arithmetic.
pub open spec fn djb2_step(h: u64, byte: u8) -> u64 {
    h.wrapping_mul(33).wrapping_add(byte as u64)
}

/// The djb2 hash of a byte string: fold every byte, first byte first, into
/// the state starting from 5381.
pub open spec fn djb2(data: Seq<u8>) -> u64
    decreases data.len(),
{
    if data.len() == 0 {
        5381u64
    } else {
        djb2_step(djb2(data.drop_last()), data.last())
    }
}

/// A stateless djb2 hasher.
pub struct Djb2Hasher;

/// The running state of a djb2 computation.
pub struct Djb2State {
    res: u64,
}

impl Djb2State {
    /// The hash computed by the last write.
    pub closed spec fn result(&self) -> u64 {
        self.res
    }

    /// A state holding no hash yet.
    pub fn new() -> (r: Djb2State)
        ensures
            r.result() == 0,
    {
        Djb2State { res: 0 }
    }

    /// The hash held by the state.
    pub fn finish(&self) -> (r: u64)
        ensures
            r == self.result(),
    {
        self.res
    }

    /// Hash the whole message and keep the result in the state.
    pub fn write(&mut self, msg: &[u8])
        ensures
            final(self).result() == djb2(msg@),
    {
        let lim: usize = msg.len();
        let mut hash: u64 = 5381;
        let mut i: usize = 0;
        while i < lim
            invariant
                i <= lim,
                lim == msg@.len(),
                hash == djb2(msg@.take(i as int)),
            decreases lim - i,
        {
            proof {
                assert(msg@.take(i + 1 as int).drop_last() =~= msg@.take(i as int));
                assert(msg@.take(i + 1 as int).last() == msg@[i as int]);
            }
            hash = hash.wrapping_mul(33).wrapping_add(msg[i] as u64);
            i = i + 1;
        }
        proof {
            assert(msg@.take(lim as int) =~= msg@);
        }
        self.res = hash;
    }
}

impl Djb2Hasher {
    /// The djb2 hash of the given byte string.
    pub fn hash(&self, value: &[u8]) -> (r: u64)
        ensures
            r == djb2(value@),
    {
        let mut state = Djb2State::new();
        state.write(value);
        state.res
    }
}

} // verus!
