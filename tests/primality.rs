use std::str::FromStr;

use miller_rabin_biguint::{miller_rabin_biguint, miller_rabin_with_base, split_off_twos, BigNat};
use num_bigint::BigUint;

fn to_big_nat(v: &BigUint) -> BigNat {
    BigNat::from_limbs(v.to_u32_digits())
}

fn is_prime_by_trial(n: u64) -> bool {
    if n < 2 {
        return false;
    }
    let mut d: u64 = 2;
    while d * d <= n {
        if n % d == 0 {
            return false;
        }
        d += 1;
    }
    true
}

#[test]
fn test_primality() {
    let one = BigUint::from(1u8);
    assert_eq!(miller_rabin_biguint(&to_big_nat(&one)), false);

    let two = BigUint::from(2u8);
    assert!(miller_rabin_biguint(&to_big_nat(&two)));

    let fifty_two = BigUint::from(52u8);
    assert_eq!(miller_rabin_biguint(&to_big_nat(&fifty_two)), false);

    let fifty_three = BigUint::from(53u8);
    assert!(miller_rabin_biguint(&to_big_nat(&fifty_three)));

    let big_64_bit_prime = BigUint::from(15930455692162817671u64);
    assert!(miller_rabin_biguint(&to_big_nat(&big_64_bit_prime)));

    let big_255_bit_prime = BigUint::from_str(
        "57896044618658097711785492504343953926634992332820282019728792003956564819949",
    )
    .unwrap();
    assert!(miller_rabin_biguint(&to_big_nat(&big_255_bit_prime)));
}

#[test]
fn zero_and_one_are_not_prime() {
    assert!(!miller_rabin_biguint(&BigNat::from_u64(0)));
    assert!(!miller_rabin_biguint(&BigNat::from_u64(1)));
    assert!(!miller_rabin_biguint(&BigNat::from_limbs(vec![])));
    assert!(!miller_rabin_biguint(&BigNat::from_limbs(vec![1, 0, 0])));
}

#[test]
fn two_is_prime() {
    assert!(miller_rabin_biguint(&BigNat::from_u64(2)));
    assert!(miller_rabin_biguint(&BigNat::from_limbs(vec![2, 0])));
}

#[test]
fn even_numbers_above_two_are_composite() {
    for n in [4u64, 6, 8, 52, 1000, 4294967296, 18446744073709551614] {
        assert!(!miller_rabin_biguint(&BigNat::from_u64(n)), "n = {}", n);
    }
    // 2^64
    assert!(!miller_rabin_biguint(&BigNat::from_limbs(vec![0, 0, 1])));
}

#[test]
fn small_primes_are_probably_prime() {
    for n in [3u64, 5, 7, 11, 13, 53, 97, 101, 7919, 65537] {
        assert!(miller_rabin_biguint(&BigNat::from_u64(n)), "n = {}", n);
    }
}

#[test]
fn small_odd_composites_are_composite() {
    for n in [9u64, 15, 21, 25, 49, 51, 91, 561, 1105] {
        assert!(!miller_rabin_biguint(&BigNat::from_u64(n)), "n = {}", n);
    }
}

#[test]
fn big_64_bit_prime_is_probably_prime() {
    assert!(miller_rabin_biguint(&BigNat::from_u64(15930455692162817671)));
}

#[test]
fn big_255_bit_prime_is_probably_prime() {
    let p = BigUint::from_str(
        "57896044618658097711785492504343953926634992332820282019728792003956564819949",
    )
    .unwrap();
    assert!(miller_rabin_biguint(&to_big_nat(&p)));
    // p + 2 = 2^255 - 17 is divisible by 3
    let q = &p + 2u32;
    assert!(!miller_rabin_biguint(&to_big_nat(&q)));
}

#[test]
fn repeated_calls_agree() {
    for n in [0u64, 1, 2, 9, 53, 2047, 15930455692162817671] {
        let x = BigNat::from_u64(n);
        assert_eq!(miller_rabin_biguint(&x), miller_rabin_biguint(&x), "n = {}", n);
    }
    let short = BigNat::from_limbs(vec![53]);
    let padded = BigNat::from_limbs(vec![53, 0, 0, 0]);
    assert_eq!(miller_rabin_biguint(&short), miller_rabin_biguint(&padded));
    assert!(miller_rabin_biguint(&padded));
}

#[test]
fn three_decomposes_without_underflow() {
    let (m, p) = split_off_twos(&BigNat::from_u64(2));
    assert_eq!(BigUint::new(m.limbs), BigUint::from(1u8));
    assert_eq!(BigUint::new(p.limbs), BigUint::from(2u8));
    assert!(miller_rabin_biguint(&BigNat::from_u64(3)));
}

#[test]
fn split_off_twos_examples() {
    let (m, p) = split_off_twos(&BigNat::from_u64(96));
    assert_eq!(BigUint::new(m.limbs), BigUint::from(3u8));
    assert_eq!(BigUint::new(p.limbs), BigUint::from(32u8));

    let (m, p) = split_off_twos(&BigNat::from_u64(1));
    assert_eq!(BigUint::new(m.limbs), BigUint::from(1u8));
    assert_eq!(BigUint::new(p.limbs), BigUint::from(1u8));

    // 2^70 * 5
    let x = BigUint::from(5u8) << 70u32;
    let (m, p) = split_off_twos(&to_big_nat(&x));
    assert_eq!(BigUint::new(m.limbs), BigUint::from(5u8));
    assert_eq!(BigUint::new(p.limbs), BigUint::from(1u8) << 70u32);
}

#[test]
fn base_two_strong_pseudoprimes_pass() {
    // 2047 = 23 * 89 and 3277 = 29 * 113 are composite, yet strong
    // probable primes to base 2.
    assert!(miller_rabin_biguint(&BigNat::from_u64(2047)));
    assert!(miller_rabin_biguint(&BigNat::from_u64(3277)));
}

#[test]
fn agrees_with_trial_division_except_strong_pseudoprimes() {
    let pseudoprimes = [2047u64, 3277, 4033, 4681, 8321, 15841];
    for n in 0u64..20000 {
        let expected = is_prime_by_trial(n) || pseudoprimes.contains(&n);
        assert_eq!(miller_rabin_biguint(&BigNat::from_u64(n)), expected, "n = {}", n);
    }
}

#[test]
fn other_bases() {
    let three = BigNat::from_u64(3);
    // 2047 is caught by base 3; 121 = 11^2 is a strong probable prime to base 3.
    assert!(!miller_rabin_with_base(&BigNat::from_u64(2047), &three));
    assert!(miller_rabin_with_base(&BigNat::from_u64(121), &three));
    assert!(miller_rabin_with_base(&BigNat::from_u64(53), &three));
    assert!(!miller_rabin_with_base(&BigNat::from_u64(121), &BigNat::from_u64(2)));
    assert!(miller_rabin_with_base(&BigNat::from_u64(2), &three));
    assert!(!miller_rabin_with_base(&BigNat::from_u64(1), &three));
}

#[test]
fn from_u64_splits_into_limbs() {
    let x = BigNat::from_u64(0x1_0000_0005);
    assert_eq!(BigUint::new(x.limbs), BigUint::from(0x1_0000_0005u64));
    let y = BigNat::from_u32(7);
    assert_eq!(y.limbs, vec![7]);
}
