use contest_lib::math::{log2, pow_mod, to_bits};
use contest_lib::num::gcd;

#[test]
fn math_test_gcd() {
    assert_eq!(gcd(0, 1), 1);
    assert_eq!(gcd(1, 0), 1);
    assert_eq!(gcd(2, 1), 1);
    assert_eq!(gcd(3, 1), 1);
    assert_eq!(gcd(1, 3), 1);
    assert_eq!(gcd(2, 3), 1);
    assert_eq!(gcd(3, 4), 1);
    assert_eq!(gcd(2, 4), 2);
    assert_eq!(gcd(4, 2), 2);
    assert_eq!(gcd(5, 3), 1);
    assert_eq!(gcd(11, 3), 1);
    assert_eq!(gcd(4, 18), 2);
    assert_eq!(gcd(100, 10), 10);
    assert_eq!(gcd(15, 35), 5);
    assert_eq!(gcd(64, 48), 16);
    assert_eq!(gcd(9, 6), 3);
    assert_eq!(gcd(1000000000000, 1000000), 1000000);
}

#[test]
fn math_test_log2() {
    assert_eq!(log2(1), 0);
    assert_eq!(log2(2), 1);
    assert_eq!(log2(3), 1);
    assert_eq!(log2(4), 2);
    assert_eq!(log2(5), 2);
    assert_eq!(log2(6), 2);
    assert_eq!(log2(7), 2);
    assert_eq!(log2(8), 3);
    assert_eq!(log2(9), 3);
    assert_eq!(log2(15), 3);
    assert_eq!(log2(16), 4);
    assert_eq!(log2(17), 4);
    assert_eq!(log2(1023), 9);
    assert_eq!(log2(1024), 10);
    assert_eq!(log2(4000), 11);
    assert_eq!(log2(4099), 12);
}

#[test]
fn math_test_pow_mod() {
    const BIG_NUM: u64 = u64::MAX;
    assert_eq!(pow_mod(10, 3, BIG_NUM), 1000);
    assert_eq!(pow_mod(10, 14, BIG_NUM), 100_000_000_000_000);
    assert_eq!(pow_mod(3, 4, BIG_NUM), 81);
    assert_eq!(pow_mod(2, 11, BIG_NUM), 2048);
    assert_eq!(pow_mod(10, 14, BIG_NUM), 100_000_000_000_000);
    assert_eq!(pow_mod(10, 14, BIG_NUM), 100_000_000_000_000);
    assert_eq!(pow_mod(4, 3, 123_123), 64);
    assert_eq!(pow_mod(1, 1, 10), 1);
    assert_eq!(pow_mod(2, 5, 7), 4);
    assert_eq!(pow_mod(3, 2, 6), 3);
    assert_eq!(pow_mod(4, 10, 4), 0);
    assert_eq!(pow_mod(5, 3, 8), 5);
}

#[test]
fn math_test_to_bits() {
    assert_eq!(to_bits(1), &[true]);
    assert_eq!(to_bits(2), &[true, false]);
    assert_eq!(to_bits(3), &[true, true]);
    assert_eq!(to_bits(4), &[true, false, false]);
    assert_eq!(to_bits(5), &[true, false, true]);
    assert_eq!(to_bits(13), &[true, true, false, true]);
    assert_eq!(to_bits(14), &[true, true, true, false]);
}

#[test]
fn lib_test_log2() {
    assert_eq!(contest_lib::log2(1), 0);
    assert_eq!(contest_lib::log2(2), 1);
    assert_eq!(contest_lib::log2(3), 1);
    assert_eq!(contest_lib::log2(4), 2);
    assert_eq!(contest_lib::log2(5), 2);
    assert_eq!(contest_lib::log2(6), 2);
    assert_eq!(contest_lib::log2(7), 2);
    assert_eq!(contest_lib::log2(8), 3);
    assert_eq!(contest_lib::log2(9), 3);
    assert_eq!(contest_lib::log2(15), 3);
    assert_eq!(contest_lib::log2(16), 4);
    assert_eq!(contest_lib::log2(17), 4);
    assert_eq!(contest_lib::log2(1023), 9);
    assert_eq!(contest_lib::log2(1024), 10);
    assert_eq!(contest_lib::log2(4000), 11);
    assert_eq!(contest_lib::log2(4099), 12);
}

#[test]
fn log2_at_the_ends_of_the_range() {
    assert_eq!(contest_lib::log2(i32::MAX), 30);
    assert_eq!(log2(u64::MAX), 63);
    assert_eq!(log2(1 << 63), 63);
    assert_eq!(log2((1 << 63) - 1), 62);
}

#[test]
fn pow_mod_of_power_zero_is_one_whatever_the_modulus() {
    assert_eq!(pow_mod(5, 0, 1), 1);
    assert_eq!(pow_mod(0, 0, 7), 1);
    assert_eq!(pow_mod(5, 1, 1), 0);
    assert_eq!(pow_mod(0, 3, 7), 0);
}

#[test]
fn pow_mod_with_factors_beyond_32_bits() {
    // 2^64 = 1 (mod 2^64 - 1), so (2^64 - 2)^2 = 1 as well.
    assert_eq!(pow_mod(u64::MAX - 1, 2, u64::MAX), 1);
    assert_eq!(pow_mod(u64::MAX - 1, 3, u64::MAX), u64::MAX - 1);
    // Fermat: a^(p-1) = 1 (mod p) for the prime p = 2^61 - 1.
    let p: u64 = (1 << 61) - 1;
    assert_eq!(pow_mod(1_234_567_890_123_456_789 % p, p - 1, p), 1);
}

#[test]
fn to_bits_starts_with_a_one_and_spells_the_number() {
    for val in [1u64, 6, 255, 256, 1 << 40, u64::MAX] {
        let bits = to_bits(val);
        assert!(bits[0]);
        let mut spelled: u64 = 0;
        for &bit in &bits {
            spelled = spelled * 2 + u64::from(bit);
        }
        assert_eq!(spelled, val);
    }
}
