use bloom::hashing::SeededHasher;
use bloom::{ASMS, BloomFilter, Intersectable, Unionable};
use std::collections::HashSet;

// The sizing formulas of the rate-based constructors: the optimal number of
// bits for the wanted false positive rate, and the optimal number of hash
// probes, clamped to [2, 200].
fn rate_dims(rate: f32, items: u32) -> (usize, u32) {
    let ln2 = std::f32::consts::LN_2;
    let bits = (items as f32 * ((1.0 / rate).ln() / (ln2 * ln2))).round() as usize;
    let hashes = ((bits as f32 / items as f32 * ln2).round() as u32).max(2).min(200);
    (bits, hashes)
}

#[test]
fn bloom_simple() {
    let (bits, hashes) = rate_dims(0.01, 100);
    let mut b = BloomFilter::with_size(bits, hashes);
    b.insert(&1i32.to_le_bytes());
    assert!(b.contains(&1i32.to_le_bytes()));
    assert!(!b.contains(&2i32.to_le_bytes()));
    b.clear();
    assert!(!b.contains(&1i32.to_le_bytes()));
}

#[test]
fn intersect() {
    let (bits, hashes) = rate_dims(0.01, 20);
    let h1 = SeededHasher::new(0x51ab_38f0_9c24_7d11);
    let h2 = SeededHasher::new(0x0b8d_52e6_41c7_9a3e);
    let mut b1 = BloomFilter::with_size_and_hashers(bits, hashes, h1, h2);
    b1.insert(&1i32.to_le_bytes());
    b1.insert(&2i32.to_le_bytes());
    let mut b2 = BloomFilter::with_size_and_hashers(bits, hashes, h1, h2);
    b2.insert(&1i32.to_le_bytes());

    b1.intersect(&b2);

    assert!(b1.contains(&1i32.to_le_bytes()));
    assert!(!b1.contains(&2i32.to_le_bytes()));
}

#[test]
fn union() {
    let (bits, hashes) = rate_dims(0.01, 20);
    let h1 = SeededHasher::new(0x51ab_38f0_9c24_7d11);
    let h2 = SeededHasher::new(0x0b8d_52e6_41c7_9a3e);
    let mut b1 = BloomFilter::with_size_and_hashers(bits, hashes, h1, h2);
    b1.insert(&1i32.to_le_bytes());
    let mut b2 = BloomFilter::with_size_and_hashers(bits, hashes, h1, h2);
    b2.insert(&2i32.to_le_bytes());

    b1.union(&b2);

    assert!(b1.contains(&1i32.to_le_bytes()));
    assert!(b1.contains(&2i32.to_le_bytes()));
}

#[test]
fn filter_dimensions() {
    let b = BloomFilter::with_size(192, 7);
    assert_eq!(b.num_bits(), 192);
    assert_eq!(b.num_hashes(), 7);
}

// Different sizes cannot be combined; equal sizes always can.
#[test]
fn union_changed_flag() {
    let h1 = SeededHasher::new(11);
    let h2 = SeededHasher::new(22);
    let mut a = BloomFilter::with_size_and_hashers(64, 3, h1, h2);
    let b = BloomFilter::with_size_and_hashers(64, 3, h1, h2);
    // unioning with an empty filter changes nothing
    assert!(!a.union(&b));
    a.insert(&7i32.to_le_bytes());
    let empty = BloomFilter::with_size_and_hashers(64, 3, h1, h2);
    // intersecting with an empty filter clears the bits that were set
    let mut c = a;
    assert!(c.intersect(&empty));
    assert!(!c.contains(&7i32.to_le_bytes()));
}

#[test]
fn fpr_test() {
    let cnt: u32 = 500000;
    let rate: f32 = 0.01;

    let (bits, hashes) = rate_dims(rate, cnt);
    assert_eq!(bits, 4792529);
    assert_eq!(hashes, 7);

    let mut b = BloomFilter::with_size(bits, hashes);
    let mut set: HashSet<i32> = HashSet::new();

    let mut i: u32 = 0;
    while i < cnt {
        let v: i32 = rand::random();
        set.insert(v);
        b.insert(&v.to_le_bytes());
        i += 1;
    }

    i = 0;
    let mut false_positives: u32 = 0;
    while i < cnt {
        let v: i32 = rand::random();
        match (b.contains(&v.to_le_bytes()), set.contains(&v)) {
            (true, false) => {
                false_positives += 1;
            }
            (false, true) => {
                // an inserted item may never be reported absent
                assert!(false);
            }
            _ => {}
        }
        i += 1;
    }

    // make sure we're not too far off
    let actual_rate = false_positives as f32 / cnt as f32;
    assert!(actual_rate > (rate - 0.001));
    assert!(actual_rate < (rate + 0.001));
}

// The insert flag: the first insert of an item reports it as new, a second
// insert of the same item reports it as probably present.
#[test]
fn insert_twice() {
    let mut b = BloomFilter::with_size(512, 4);
    assert!(b.insert(&10i32.to_le_bytes()));
    assert!(!b.insert(&10i32.to_le_bytes()));
}
