use contest_lib::num::factors::Factors;
use contest_lib::num::prime_factors::PrimeFactors;
use contest_lib::num::{bits_to_num, gcd, gcd_ext, inverse, num_to_bits};

#[test]
fn mod_test_gcd() {
    assert_eq!(gcd(0, 1), 1);
    assert_eq!(gcd(1, 0), 1);
    assert_eq!(gcd(2, 1), 1);
    assert_eq!(gcd(3, 1), 1);
    assert_eq!(gcd(1, 3), 1);
    assert_eq!(gcd(2, 3), 1);
    assert_eq!(gcd(3, 4), 1);
    assert_eq!(gcd(2, 4), 2);
    assert_eq!(gcd(4, 2), 2);
    assert_eq!(gcd(5, 3), 1);
    assert_eq!(gcd(11, 3), 1);
    assert_eq!(gcd(4, 18), 2);
    assert_eq!(gcd(100, 10), 10);
    assert_eq!(gcd(15, 35), 5);
    assert_eq!(gcd(64, 48), 16);
    assert_eq!(gcd(9, 6), 3);
    assert_eq!(gcd(1_000_000_000_000, 1_000_000), 1_000_000);
}

#[test]
fn test_num_to_bits() {
    assert_eq!(num_to_bits(1), &[true]);
    assert_eq!(num_to_bits(2), &[false, true]);
    assert_eq!(num_to_bits(3), &[true, true]);
    assert_eq!(num_to_bits(4), &[false, false, true]);
    assert_eq!(num_to_bits(5), &[true, false, true]);
    assert_eq!(num_to_bits(13), &[true, false, true, true]);
    assert_eq!(num_to_bits(14), &[false, true, true, true]);
}

#[test]
fn test_bits_to_num() {
    for num in (0..=10).chain([16, 18, 34, 123_235_199, 2_251_123, !0u64].iter().copied()) {
        assert_eq!(num, bits_to_num(&num_to_bits(num)));
    }
}

#[test]
fn test_inverse_simple() {
    const P: u64 = 1_000_000_000 + 7;
    assert_eq!(inverse(3, P) * 3 % P, 1);
    assert_eq!(inverse(18, P) * 18 % P, 1);
    assert_eq!(inverse(19, P) * 19 % P, 1);
    assert_eq!(inverse(20, P) * 20 % P, 1);

    assert_eq!(inverse(3, P) * 6 % P, 2);
    assert_eq!(inverse(2, P) * 6 % P, 3);
    assert_eq!(inverse(4, P) * 20 % P, 5);
    assert_eq!(inverse(74, P) * 148 % P, 2);
    assert_eq!(inverse(8, P) * 280 % P, 35);
}

#[test]
fn test_inverse_extensive() {
    for num in [
        1, 2, 3, 4, 5, 6, 7, 8, 9, 133, 150_982, 123, 14214, 1522, 231_245, 1333, 43231, 523_412,
        999, 19239, 987,
    ] {
        for m in [5, 7, 11, 13, 19, 23, 998_244_353, 1_000_000_000 + 7] {
            if num >= m {
                continue;
            }
            assert_eq!(inverse(num, m) * num % m, 1);
        }
    }
}

#[test]
fn test_factors() {
    let f = Factors::new(500_000);
    assert_eq!(f.factors(0), &[]);
    assert_eq!(f.factors(1), &[1]);
    assert_eq!(f.factors(2), &[1, 2]);
    assert_eq!(f.factors(3), &[1, 3]);
    assert_eq!(f.factors(4), &[1, 2, 4]);
    assert_eq!(f.factors(5), &[1, 5]);
    assert_eq!(f.factors(6), &[1, 2, 3, 6]);
    assert_eq!(f.factors(7), &[1, 7]);
    assert_eq!(f.factors(8), &[1, 2, 4, 8]);
    assert_eq!(f.factors(9), &[1, 3, 9]);
    assert_eq!(f.factors(10), &[1, 2, 5, 10]);
    assert_eq!(f.factors(12), &[1, 2, 3, 4, 6, 12]);
    assert_eq!(f.factors(988), &[1, 2, 4, 13, 19, 26, 38, 52, 76, 247, 494, 988]);
}

#[test]
#[allow(clippy::bool_assert_comparison)]
fn test_prime_factors() {
    let pf = PrimeFactors::new(1_000_000);

    assert_eq!(pf.prime_factor(0), 0);
    assert_eq!(pf.prime_factor(1), 1);
    assert_eq!(pf.prime_factor(2), 2);
    assert_eq!(pf.prime_factor(3), 3);
    assert_eq!(pf.prime_factor(4), 2);
    assert_eq!(pf.prime_factor(5), 5);
    assert_eq!(pf.prime_factor(6), 3);
    assert_eq!(pf.prime_factor(18), 3);
    assert_eq!(pf.prime_factor(121), 11);

    assert_eq!(pf.is_prime(2), true);
    assert_eq!(pf.is_prime(3), true);
    assert_eq!(pf.is_prime(5), true);
    assert_eq!(pf.is_prime(7), true);
    assert_eq!(pf.is_prime(11), true);
    assert_eq!(pf.is_prime(1741), true);
    assert_eq!(pf.is_prime(6301), true);
    assert_eq!(pf.is_prime(7919), true);
    assert_eq!(pf.is_prime(7800), false);
    assert_eq!(pf.is_prime(1_000_000), false);
    assert_eq!(pf.is_prime(999_999), false);

    assert_eq!(
        pf.prime_factors(2 * 2 * 2 * 2 * 5 * 5 * 7 * 11 * 19).collect(),
        &[(1, 19), (1, 11), (1, 7), (2, 5), (4, 2)]
    );
    assert_eq!(pf.prime_factors(2).collect(), &[(1, 2)]);
    assert_eq!(pf.prime_factors(5).collect(), &[(1, 5)]);
    assert_eq!(pf.prime_factors(5 * 7).collect(), &[(1, 7), (1, 5)]);
}

#[test]
fn gcd_divides_both_and_no_common_divisor_is_larger() {
    for a in 0..40u64 {
        for b in 0..40u64 {
            if a == 0 && b == 0 {
                continue;
            }
            let g = gcd(a, b);
            assert!(g > 0 && a % g == 0 && b % g == 0);
            for d in 1..=40u64 {
                if a % d == 0 && b % d == 0 {
                    assert!(d <= g);
                }
            }
        }
    }
}

#[test]
fn gcd_ext_gives_the_gcd_and_small_coefficients_for_it() {
    assert_eq!(gcd_ext(0, 0), (0, 1, 0));
    assert_eq!(gcd_ext(240, 46), (2, -9, 47));
    assert_eq!(gcd_ext(7, 0), (7, 1, 0));
    assert_eq!(gcd_ext(0, 7), (7, 0, 1));
    for a in 0..60u64 {
        for b in 0..60u64 {
            let (g, k1, k2) = gcd_ext(a, b);
            assert_eq!(k1 * a as i64 + k2 * b as i64, g as i64);
            if a > 0 || b > 0 {
                assert_eq!(g, gcd(a, b));
            }
            assert!(k1.unsigned_abs() <= b.max(1));
            assert!(k2.unsigned_abs() <= a.max(1));
        }
    }
    let big = i64::MAX as u64;
    let (g, k1, k2) = gcd_ext(big, big - 1);
    assert_eq!(g, 1);
    assert_eq!(i128::from(k1) * i128::from(big) + i128::from(k2) * i128::from(big - 1), 1);
}

#[test]
fn inverse_is_below_the_modulus() {
    assert_eq!(inverse(3, 7), 5);
    assert_eq!(inverse(1, 1), 0);
    assert_eq!(inverse(0, 1), 0);
    assert_eq!(inverse(10, 3), 1);
    assert_eq!(inverse(6, 7), 6);
    assert_eq!(inverse(2, 9), 5);
}

#[test]
fn bits_spell_numbers_least_significant_bit_first() {
    assert_eq!(num_to_bits(0), Vec::<bool>::new());
    assert_eq!(bits_to_num(&[]), 0);
    assert_eq!(bits_to_num(&[false, true, true]), 6);
    assert_eq!(bits_to_num(&[true, false, false, false]), 1);
    assert_eq!(num_to_bits(u64::MAX).len(), 64);
    // Bits beyond the 64th are fine as long as they are zeros.
    let mut long = vec![true; 64];
    long.extend([false; 10]);
    assert_eq!(bits_to_num(&long), u64::MAX);
}

#[test]
fn factors_of_every_small_number() {
    let f = Factors::new(300);
    for val in 1..=300u64 {
        let expected: Vec<u64> = (1..=val).filter(|d| val % d == 0).collect();
        assert_eq!(f.factors(val), expected.as_slice());
    }
    let smallest = Factors::new(0);
    assert_eq!(smallest.factors(0), &[]);
}

#[test]
fn prime_factors_multiply_back() {
    let pf = PrimeFactors::new(5_000);
    for val in 1..=5_000u64 {
        let factors = pf.prime_factors(val).collect();
        let mut product = 1u64;
        let mut last = u64::MAX;
        for &(cnt, p) in &factors {
            assert!(pf.is_prime(p));
            assert!(p < last);
            assert!(cnt >= 1);
            last = p;
            product *= p.pow(cnt as u32);
        }
        assert_eq!(product, val);
    }
    let smallest = PrimeFactors::new(1);
    assert_eq!(smallest.prime_factor(1), 1);
    assert_eq!(smallest.prime_factors(1).collect(), Vec::<(usize, u64)>::new());
    let mut walk = pf.prime_factors(12);
    assert_eq!(walk.next(), Some((1, 3)));
    assert_eq!(walk.next(), Some((2, 2)));
    assert_eq!(walk.next(), None);
    assert_eq!(walk.next(), None);
}
