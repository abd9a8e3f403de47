use ffzf::natural::Natural;

fn value(n: &Natural) -> u128 {
    let limbs = n.limbs();
    assert!(limbs.iter().skip(2).all(|limb| *limb == 0));
    let low = limbs.first().copied().unwrap_or(0) as u128;
    let high = limbs.get(1).copied().unwrap_or(0) as u128;
    (high << 64) | low
}

fn significant(n: &Natural) -> Vec<u64> {
    let mut limbs = n.limbs();
    while limbs.last() == Some(&0) {
        limbs.pop();
    }
    limbs
}

#[test]
fn natural_holds_a_machine_word() {
    for x in [0, 1, 7, u64::MAX] {
        assert_eq!(value(&Natural::from_u64(x)), x as u128);
        assert_eq!(value(&Natural::from_u64(x).clone()), x as u128);
    }
}

#[test]
fn natural_times_small_carries() {
    let max = u64::MAX as u128;
    assert_eq!(value(&Natural::from_u64(u64::MAX).times_small(u64::MAX)), max * max);
    assert_eq!(value(&Natural::from_u64(u64::MAX).times_small(2)), max * 2);
    assert_eq!(value(&Natural::from_u64(12).times_small(0)), 0);
    assert_eq!(value(&Natural::from_u64(0).times_small(12)), 0);
    assert_eq!(value(&Natural::from_u64(6).times_small(7)), 42);
    let cube = Natural::from_u64(u64::MAX).times_small(u64::MAX).times_small(u64::MAX);
    // (2^64 - 1)^3 = 2^192 - 3 * 2^128 + 3 * 2^64 - 1
    assert_eq!(significant(&cube), vec![u64::MAX, 2, u64::MAX - 2]);
}

#[test]
fn natural_plus_carries() {
    let max = Natural::from_u64(u64::MAX);
    assert_eq!(value(&max.plus(&Natural::from_u64(1))), 1u128 << 64);
    assert_eq!(value(&max.plus(&max)), (u64::MAX as u128) * 2);
    assert_eq!(value(&Natural::from_u64(2).plus(&Natural::from_u64(3))), 5);
    let square = max.times_small(u64::MAX);
    assert_eq!(value(&square.plus(&max)), (u64::MAX as u128) * (u64::MAX as u128 + 1));
    assert_eq!(value(&max.plus(&square)), (u64::MAX as u128) * (u64::MAX as u128 + 1));
    // 2 * (2^64 - 1)^2 = 2^129 - 2^66 + 2
    assert_eq!(significant(&square.plus(&square)), vec![2, u64::MAX - 3, 1]);
}

#[test]
fn natural_times_is_the_product() {
    let a = Natural::from_u64(0xdead_beef_0123_4567);
    let b = Natural::from_u64(0x89ab_cdef_fedc_ba98);
    let expected = 0xdead_beef_0123_4567u128 * 0x89ab_cdef_fedc_ba98u128;
    assert_eq!(value(&a.times(&b)), expected);
    assert_eq!(value(&b.times(&a)), expected);
    assert_eq!(value(&a.times(&Natural::from_u64(0))), 0);
    assert_eq!(value(&a.times(&Natural::from_u64(1))), 0xdead_beef_0123_4567);
    let max = Natural::from_u64(u64::MAX);
    let square = max.times(&max);
    let fourth = square.times(&square);
    let same = max.times_small(u64::MAX).times_small(u64::MAX).times_small(u64::MAX);
    assert_eq!(significant(&fourth), significant(&same));
    // (2^64 - 1)^4 = 2^256 - 4 * 2^192 + 6 * 2^128 - 4 * 2^64 + 1
    assert_eq!(significant(&fourth), vec![1, u64::MAX - 3, 5, u64::MAX - 3]);
}

#[test]
fn natural_order_is_by_value() {
    let small = Natural::from_u64(5);
    let big = Natural::from_u64(u64::MAX).times_small(3);
    let bigger = Natural::from_u64(u64::MAX).times_small(4);
    assert!(small.is_less_than(&big));
    assert!(!big.is_less_than(&small));
    assert!(big.is_less_than(&bigger));
    assert!(!bigger.is_less_than(&big));
    assert!(!big.is_less_than(&big.clone()));
    assert!(!small.is_less_than(&Natural::from_u64(5)));
    assert!(Natural::from_u64(0).is_less_than(&Natural::from_u64(1)));
    // The higher limb decides, whatever the lower ones hold.
    let low_heavy = Natural::from_u64(u64::MAX);
    let high_light = Natural::from_u64(1).plus(&Natural::from_u64(u64::MAX));
    assert!(low_heavy.is_less_than(&high_light));
    // Limbs of zero above the value do not count.
    let padded = Natural::from_u64(5).times_small(1).times_small(1);
    assert!(!padded.is_less_than(&small) && !small.is_less_than(&padded));
}
