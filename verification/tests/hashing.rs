use bloom::djb2::{Djb2Hasher, Djb2State};
use bloom::hashing::{HashIter, SeededHasher};

// Hashing the same bytes under the same seed always yields the same value;
// different seeds make the two hash functions disagree.
#[test]
fn seeded_hash_deterministic() {
    let a = SeededHasher::new(42);
    let b = SeededHasher::new(42);
    let c = SeededHasher::new(43);
    let data = [1u8, 2, 3, 4];
    assert_eq!(a.hash_bytes(&data), b.hash_bytes(&data));
    assert_eq!(a.hash_bytes(&data), a.hash_bytes(&data));
    assert_ne!(a.hash_bytes(&data), c.hash_bytes(&data));
    assert_ne!(a.hash_bytes(&data), a.hash_bytes(&[1u8, 2, 3, 5]));
}

// The probe sequence starts with the two base hashes and continues with
// `(h1 + i) * h2` in wraparound arithmetic; it ends after `count` values.
#[test]
fn probe_formula() {
    let h1 = SeededHasher::new(7);
    let h2 = SeededHasher::new(8);
    let item = [9u8, 9, 9];
    let mut probes = HashIter::from(&item, 5, &h1, &h2);
    let v0 = probes.next().unwrap();
    let v1 = probes.next().unwrap();
    let v2 = probes.next().unwrap();
    let v3 = probes.next().unwrap();
    let v4 = probes.next().unwrap();
    assert_eq!(v0, h1.hash_bytes(&item));
    assert_eq!(v1, h2.hash_bytes(&item));
    assert_eq!(v2, v0.wrapping_add(2).wrapping_mul(v1));
    assert_eq!(v3, v0.wrapping_add(3).wrapping_mul(v1));
    assert_eq!(v4, v0.wrapping_add(4).wrapping_mul(v1));
    assert_eq!(probes.next(), None);
    assert_eq!(probes.next(), None);
}

#[test]
fn probe_sequence_short() {
    let h1 = SeededHasher::new(1);
    let h2 = SeededHasher::new(2);
    let item = [0u8];
    let mut probes = HashIter::from(&item, 1, &h1, &h2);
    assert_eq!(probes.next(), Some(h1.hash_bytes(&item)));
    assert_eq!(probes.next(), None);

    let mut empty = HashIter::from(&item, 0, &h1, &h2);
    assert_eq!(empty.next(), None);
}

// djb2 is hash * 33 + byte, starting from 5381.
#[test]
fn djb2_known_values() {
    let hasher = Djb2Hasher;
    assert_eq!(hasher.hash(&[]), 5381);
    assert_eq!(hasher.hash(&[1]), 5381 * 33 + 1);
    assert_eq!(hasher.hash(&[1, 2]), (5381 * 33 + 1) * 33 + 2);

    let mut state = Djb2State::new();
    assert_eq!(state.finish(), 0);
    state.write(&[1, 2]);
    assert_eq!(state.finish(), 5859944);
}

// Hashers drawn from entropy hash deterministically once created.
#[test]
fn entropy_hasher_consistent() {
    let h = SeededHasher::from_entropy();
    let data = [3u8, 1, 4, 1, 5];
    assert_eq!(h.hash_bytes(&data), h.hash_bytes(&data));
}
