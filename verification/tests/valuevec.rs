use bloom::ValueVec;

#[test]
fn set_get_no_overlap() {
    let mut vv = ValueVec::new(4, 12);

    vv.set(1, 3);
    assert_eq!(vv.get(1), 3);

    vv.set(2, 4);
    assert_eq!(vv.get(1), 3);
    assert_eq!(vv.get(2), 4);

    vv.set(11, 2);
    assert_eq!(vv.get(1), 3);
    assert_eq!(vv.get(2), 4);
    assert_eq!(vv.get(11), 2);
}

#[test]
fn set_get_overlap() {
    let mut vv = ValueVec::new(3, 12);

    vv.set(1, 3);
    assert_eq!(vv.get(1), 3);

    vv.set(2, 4);
    assert_eq!(vv.get(1), 3);
    assert_eq!(vv.get(2), 4);

    vv.set(10, 7);
    assert_eq!(vv.get(1), 3);
    assert_eq!(vv.get(2), 4);
    assert_eq!(vv.get(10), 7);

    vv.set(11, 2);
    assert_eq!(vv.get(1), 3);
    assert_eq!(vv.get(2), 4);
    assert_eq!(vv.get(10), 7);
    assert_eq!(vv.get(11), 2);
}

#[test]
fn with_max() {
    let mut vv = ValueVec::with_max(35, 3);
    vv.set(0, 35);
    assert_eq!(vv.get(0), 35);
    vv.set(2, 14);
    assert_eq!(vv.get(0), 35);
    assert_eq!(vv.get(2), 14);
    assert_eq!(vv.get(1), 0);
}

#[test]
fn store_dimensions() {
    let vv = ValueVec::new(4, 12);
    assert_eq!(vv.bits_per_val(), 4);
    assert_eq!(vv.max_value(), 15);
    assert_eq!(vv.len(), 48);

    let wide = ValueVec::with_max(35, 3);
    assert_eq!(wide.bits_per_val(), 6);
    assert_eq!(wide.max_value(), 63);
    assert_eq!(wide.len(), 18);
}

#[test]
fn clear_resets_values() {
    let mut vv = ValueVec::new(5, 20);
    for i in 0..20 {
        vv.set(i, (i as u32) % 32);
    }
    vv.clear();
    for i in 0..20 {
        assert_eq!(vv.get(i), 0);
    }
    assert_eq!(vv.len(), 100);
    assert_eq!(vv.bits_per_val(), 5);
}

// Round-trip across every value width, with slots that straddle word
// boundaries: writing one slot yields the same value back and leaves every
// other slot untouched.
#[test]
fn round_trip_all_widths() {
    for bits in 1usize..=31 {
        let count = 67usize;
        let mut vv = ValueVec::new(bits, count);
        let max: u32 = vv.max_value();
        let mut expected = vec![0u32; count];
        for i in 0..count {
            let v = (i as u32).wrapping_mul(2654435761) % (max + 1);
            vv.set(i, v);
            expected[i] = v;
            for j in 0..count {
                assert_eq!(vv.get(j), expected[j], "width {} slot {}", bits, j);
            }
        }
        // the largest value fits and reads back exactly
        vv.set(33, max);
        assert_eq!(vv.get(33), max);
        assert_eq!(vv.get(32), expected[32]);
        assert_eq!(vv.get(34), expected[34]);
    }
}
