use bloom::hashing::SeededHasher;
use bloom::{ASMS, CountingBloomFilter};

// The sizing formulas of the rate-based constructors, shared with the plain
// filter: entries for the wanted false positive rate, and the probe count
// clamped to [2, 200].
fn rate_entries(rate: f32, items: u32) -> (usize, u32) {
    let ln2 = std::f32::consts::LN_2;
    let entries = (items as f32 * ((1.0 / rate).ln() / (ln2 * ln2))).round() as usize;
    let hashes = ((entries as f32 / items as f32 * ln2).round() as u32).max(2).min(200);
    (entries, hashes)
}

fn fixed_hashers() -> (SeededHasher, SeededHasher) {
    (SeededHasher::new(0x243f_6a88_85a3_08d3), SeededHasher::new(0x1319_8a2e_0370_7344))
}

#[test]
fn counting_simple() {
    let (entries, hashes) = rate_entries(0.01, 100);
    let mut cbf = CountingBloomFilter::with_size(entries, 4, hashes);
    assert_eq!(cbf.insert(&1i32.to_le_bytes()), false);
    assert!(cbf.contains(&1i32.to_le_bytes()));
    assert!(!cbf.contains(&2i32.to_le_bytes()));
}

#[test]
fn remove() {
    let (entries, hashes) = rate_entries(0.01, 100);
    let (h1, h2) = fixed_hashers();
    let mut cbf = CountingBloomFilter::with_size_and_hashers(
        entries,
        CountingBloomFilter::bits_for_max(10),
        hashes,
        h1,
        h2,
    );
    assert_eq!(cbf.insert_get_count(&1i32.to_le_bytes()), 0);
    cbf.insert(&2i32.to_le_bytes());
    assert!(cbf.contains(&1i32.to_le_bytes()));
    assert!(cbf.contains(&2i32.to_le_bytes()));
    assert_eq!(cbf.remove(&2i32.to_le_bytes()), 1);
    assert_eq!(cbf.remove(&3i32.to_le_bytes()), 0);
    assert!(cbf.contains(&1i32.to_le_bytes()));
    assert!(!cbf.contains(&2i32.to_le_bytes()));
}

#[test]
fn estimate_count() {
    let (entries, hashes) = rate_entries(0.01, 100);
    let (h1, h2) = fixed_hashers();
    let mut cbf = CountingBloomFilter::with_size_and_hashers(entries, 4, hashes, h1, h2);
    cbf.insert(&1i32.to_le_bytes());
    cbf.insert(&2i32.to_le_bytes());
    assert_eq!(cbf.estimate_count(&1i32.to_le_bytes()), 1);
    assert_eq!(cbf.estimate_count(&2i32.to_le_bytes()), 1);
    assert_eq!(cbf.insert_get_count(&1i32.to_le_bytes()), 1);
    assert_eq!(cbf.estimate_count(&1i32.to_le_bytes()), 2);
}

// The documented example: a counting filter with 4 bits per entry sized for
// 100 items at a 1% false positive rate; counts follow inserts and removals
// exactly while nothing collides.
#[test]
fn example_scenario() {
    let (entries, hashes) = rate_entries(0.01, 100);
    let (h1, h2) = fixed_hashers();
    let mut cbf = CountingBloomFilter::with_size_and_hashers(entries, 4, hashes, h1, h2);
    cbf.insert(&1i32.to_le_bytes());
    cbf.insert(&2i32.to_le_bytes());
    assert_eq!(cbf.estimate_count(&1i32.to_le_bytes()), 1);
    assert_eq!(cbf.estimate_count(&2i32.to_le_bytes()), 1);
    assert_eq!(cbf.insert_get_count(&1i32.to_le_bytes()), 1);
    assert_eq!(cbf.estimate_count(&1i32.to_le_bytes()), 2);
    assert_eq!(cbf.remove(&1i32.to_le_bytes()), 2);
    assert_eq!(cbf.estimate_count(&1i32.to_le_bytes()), 1);
}

// Saturation: a counter of 2 bits caps at 3 however often the item is
// inserted, and never wraps back to zero.
#[test]
fn saturation() {
    let (h1, h2) = fixed_hashers();
    let mut cbf = CountingBloomFilter::with_size_and_hashers(64, 2, 2, h1, h2);
    let item = 5i32.to_le_bytes();
    for _ in 0..10 {
        cbf.insert(&item);
    }
    assert_eq!(cbf.estimate_count(&item), 3);
    cbf.insert(&item);
    assert_eq!(cbf.estimate_count(&item), 3);
    assert!(cbf.contains(&item));
}

// Removal bound: after inserting an item three times, the estimate and the
// removal report are exactly three; removing as often as inserted leaves
// the item absent, and removing an absent item reports zero.
#[test]
fn remove_matches_inserts() {
    let (h1, h2) = fixed_hashers();
    let mut cbf = CountingBloomFilter::with_size_and_hashers(100000, 4, 7, h1, h2);
    let item = 77i32.to_le_bytes();
    cbf.insert(&item);
    cbf.insert(&item);
    cbf.insert(&item);
    assert_eq!(cbf.estimate_count(&item), 3);
    assert_eq!(cbf.remove(&item), 3);
    assert_eq!(cbf.remove(&item), 2);
    assert_eq!(cbf.remove(&item), 1);
    assert!(!cbf.contains(&item));
    assert_eq!(cbf.remove(&item), 0);
}

#[test]
fn clear_empties() {
    let (h1, h2) = fixed_hashers();
    let mut cbf = CountingBloomFilter::with_size_and_hashers(256, 4, 3, h1, h2);
    cbf.insert(&9i32.to_le_bytes());
    assert!(cbf.contains(&9i32.to_le_bytes()));
    cbf.clear();
    assert!(!cbf.contains(&9i32.to_le_bytes()));
    assert_eq!(cbf.estimate_count(&9i32.to_le_bytes()), 0);
}

#[test]
fn bits_for_max_values() {
    assert_eq!(CountingBloomFilter::bits_for_max(0), 0);
    assert_eq!(CountingBloomFilter::bits_for_max(1), 1);
    assert_eq!(CountingBloomFilter::bits_for_max(10), 4);
    assert_eq!(CountingBloomFilter::bits_for_max(15), 4);
    assert_eq!(CountingBloomFilter::bits_for_max(16), 5);
    assert_eq!(CountingBloomFilter::bits_for_max(0x7fff_ffff), 31);
}

// The insert flag: the first insert of an item reports it as absent, a
// second insert of the same item reports it as already present.
#[test]
fn counting_insert_twice() {
    let (h1, h2) = fixed_hashers();
    let mut cbf = CountingBloomFilter::with_size_and_hashers(512, 4, 4, h1, h2);
    assert_eq!(cbf.insert(&10i32.to_le_bytes()), false);
    assert_eq!(cbf.insert(&10i32.to_le_bytes()), true);
}
