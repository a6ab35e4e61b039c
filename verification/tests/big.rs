use js_adapters::big::{big_from, big_less, big_minus, big_sum, big_times, LIMBS};

fn limbs_of(mut value: u128) -> Vec<u32> {
    let mut limbs = vec![0u32; LIMBS];
    let mut i = 0;
    while value > 0 {
        limbs[i] = (value & 0xFFFF_FFFF) as u32;
        value >>= 32;
        i += 1;
    }
    limbs
}

#[test]
fn big_from_writes_a_number_in_limbs() {
    assert_eq!(big_from(0), limbs_of(0));
    assert_eq!(big_from(1), limbs_of(1));
    assert_eq!(big_from(0xFFFF_FFFF), limbs_of(0xFFFF_FFFF));
    assert_eq!(big_from(0x1_0000_0000), limbs_of(0x1_0000_0000));
    assert_eq!(big_from(u64::MAX), limbs_of(u64::MAX as u128));
    assert_eq!(big_from(7).len(), LIMBS);
}

#[test]
fn big_times_multiplies_with_carries() {
    let mut x = big_from(u64::MAX);
    big_times(&mut x, 10);
    assert_eq!(x, limbs_of(u64::MAX as u128 * 10));
    big_times(&mut x, 0xFFFF_FFFF);
    assert_eq!(x, limbs_of(u64::MAX as u128 * 10 * 0xFFFF_FFFF));
    big_times(&mut x, 0);
    assert_eq!(x, limbs_of(0));
    let mut power = big_from(1);
    for _ in 0..100 {
        big_times(&mut power, 2);
    }
    assert_eq!(power, limbs_of(1u128 << 100));
}

#[test]
fn big_sum_adds_with_carries() {
    let a = big_from(u64::MAX);
    let b = big_from(1);
    assert_eq!(big_sum(&a, &b), limbs_of(u64::MAX as u128 + 1));
    let c = limbs_of(u128::MAX);
    let mut expected = vec![0u32; LIMBS];
    expected[4] = 1;
    assert_eq!(big_sum(&c, &b), expected);
    assert_eq!(big_sum(&big_from(0), &big_from(0)), limbs_of(0));
}

#[test]
fn big_minus_takes_away_with_borrows() {
    let mut a = limbs_of(1u128 << 96);
    big_minus(&mut a, &big_from(1));
    assert_eq!(a, limbs_of((1u128 << 96) - 1));
    let mut b = big_from(1000);
    big_minus(&mut b, &big_from(1000));
    assert_eq!(b, limbs_of(0));
    let mut c = limbs_of(123_456_789_012_345_678_901_234_567_890);
    big_minus(&mut c, &limbs_of(23_456_789_012_345_678_901_234_567_891));
    assert_eq!(c, limbs_of(99_999_999_999_999_999_999_999_999_999));
}

#[test]
fn big_less_orders_by_value() {
    assert!(big_less(&big_from(1), &big_from(2)));
    assert!(!big_less(&big_from(2), &big_from(1)));
    assert!(!big_less(&big_from(2), &big_from(2)));
    assert!(big_less(&big_from(u64::MAX), &limbs_of(1u128 << 64)));
    assert!(!big_less(&limbs_of(1u128 << 64), &big_from(u64::MAX)));
    assert!(big_less(&limbs_of((1u128 << 100) + 5), &limbs_of((1u128 << 100) + 6)));
    assert!(big_less(&big_from(0), &big_from(1)));
}
