//! Logarithms, modular powers and binary expansions of `u64`.

use crate::num::bits_value;
use vstd::arithmetic::power::{lemma_pow0, lemma_pow1, lemma_pow_adds, lemma_pow_mod_noop, lemma_pow_multiplies, pow};
use vstd::arithmetic::power2::{lemma_pow2_strictly_increases, lemma_pow2_unfold, pow2};
use vstd::prelude::*;
use vstd::std_specs::bits::u64_leading_zeros;

verus! {

/// The leading zeros of a positive `value` leave exactly the bits that are
/// needed to write it.
pub proof fn lemma_leading_zeros(value: u64)
    requires
        value > 0,
    ensures
        0 <= u64_leading_zeros(value) <= 63,
        pow2((63 - u64_leading_zeros(value)) as nat) <= value < pow2(
            (64 - u64_leading_zeros(value)) as nat,
        ),
    decreases value,
{
    reveal(u64_leading_zeros);
    vstd::arithmetic::power2::lemma2_to64();
    if value == 1 {
        assert(u64_leading_zeros(0) == 64);
        assert(u64_leading_zeros(1) == 63);
    } else {
        let half = value / 2;
        lemma_leading_zeros(half);
        let k = (63 - u64_leading_zeros(half)) as nat;
        lemma_pow2_unfold(k + 1);
        lemma_pow2_unfold(k + 2);
        if k + 1 >= 64 {
            if k + 1 > 64 {
                lemma_pow2_strictly_increases(64, k + 1);
            }
            assert(false);
        }
    }
}

/// The base 2 logarithm of `value`, rounded down.
pub fn log2(value: u64) -> (r: u64)
    requires
        value > 0,
    ensures
        r <= 63,
        pow2(r as nat) <= value < pow2((r + 1) as nat),
{
    proof {
        lemma_leading_zeros(value);
    }
    (u64::BITS - value.leading_zeros() - 1) as u64
}

/// `value` to the power of `pow`, modulo `m`; 1 for the power 0, whatever
/// `m` is.
///
/// Products are formed in 128 bits, so that no factor is too large.
pub fn pow_mod(value: u64, pow: u64, m: u64) -> (res: u64)
    requires
        m > 0,
    ensures
        pow > 0 ==> res == vstd::arithmetic::power::pow(value as int, pow as nat) % (m as int),
        pow == 0 ==> res == 1,
{
    let ghost goal = vstd::arithmetic::power::pow(value as int, pow as nat);
    let ghost mi = m as int;
    let mut left = pow;
    let mut value_pow2: u64 = value;
    let mut res: u64 = 1;
    while left > 0
        invariant
            m > 0,
            mi == m,
            (res * vstd::arithmetic::power::pow(value_pow2 as int, left as nat)) % mi == goal % mi,
            left == 0 && pow > 0 ==> res < m,
            pow == 0 ==> left == 0 && res == 1,
            left == pow || value_pow2 < m,
        decreases left,
    {
        let ghost base = value_pow2 as int;
        let ghost e = left as nat;
        let ghost acc = res as int;
        let ghost half = (e / 2) as nat;
        proof {
            // base^e is (base^2)^(e/2), times base where e is odd.
            lemma_pow_multiplies(base, 2, half);
            lemma_pow1(base);
            lemma_pow_adds(base, 1, 1);
            assert(vstd::arithmetic::power::pow(base, 2) == base * base);
            if e % 2 == 1 {
                lemma_pow_adds(base, 1, 2 * half);
                assert(2 * half + 1 == e);
            } else {
                assert(2 * half == e);
            }
            // Reducing the square modulo m first changes nothing modulo m.
            lemma_pow_mod_noop(base * base, half, mi);
            assert(0 <= base * base <= 0xFFFF_FFFF_FFFF_FFFF * 0xFFFF_FFFF_FFFF_FFFF)
                by (nonlinear_arith)
                requires
                    0 <= base <= 0xFFFF_FFFF_FFFF_FFFF,
            ;
            assert(0 <= acc * base <= 0xFFFF_FFFF_FFFF_FFFF * 0xFFFF_FFFF_FFFF_FFFF)
                by (nonlinear_arith)
                requires
                    0 <= base <= 0xFFFF_FFFF_FFFF_FFFF,
                    0 <= acc <= 0xFFFF_FFFF_FFFF_FFFF,
            ;
        }
        if left % 2 == 1 {
            res = ((res as u128 * value_pow2 as u128) % (m as u128)) as u64;
        }
        value_pow2 = ((value_pow2 as u128 * value_pow2 as u128) % (m as u128)) as u64;
        left /= 2;
        proof {
            let sq = base * base;
            let p_sq = vstd::arithmetic::power::pow(sq, half);
            let p_red = vstd::arithmetic::power::pow(sq % mi, half);
            assert(value_pow2 as int == sq % mi);
            assert(p_red % mi == p_sq % mi);
            if e % 2 == 1 {
                assert(res as int == (acc * base) % mi);
                // (acc * base % m) * p_red  ==  acc * base * p_sq  (mod m)
                vstd::arithmetic::div_mod::lemma_mul_mod_noop_general(acc * base, p_red, mi);
                vstd::arithmetic::div_mod::lemma_mul_mod_noop_general(acc * base, p_sq, mi);
                vstd::arithmetic::div_mod::lemma_mul_mod_noop_general(
                    (acc * base) % mi,
                    p_red,
                    mi,
                );
                vstd::arithmetic::div_mod::lemma_mod_twice(acc * base, mi);
                assert((acc * base) * p_sq == acc * vstd::arithmetic::power::pow(base, e))
                    by (nonlinear_arith)
                    requires
                        vstd::arithmetic::power::pow(base, e) == base * p_sq,
                ;
            } else {
                vstd::arithmetic::div_mod::lemma_mul_mod_noop_general(acc, p_red, mi);
                vstd::arithmetic::div_mod::lemma_mul_mod_noop_general(acc, p_sq, mi);
            }
        }
    }
    proof {
        lemma_pow0(value_pow2 as int);
        if pow > 0 {
            vstd::arithmetic::div_mod::lemma_small_mod(res as nat, m as nat);
        }
    }
    res
}

/// The binary expansion of a positive `val`, starting with its most
/// significant bit, which is a one.
pub fn to_bits(val: u64) -> (res: Vec<bool>)
    requires
        val > 0,
    ensures
        res.len() > 0,
        res@[0],
        bits_value(res@.reverse()) == val,
{
    let mut rest = val;
    let mut res: Vec<bool> = Vec::new();
    proof {
        vstd::arithmetic::power2::lemma2_to64();
        assert(pow2(0) * rest == rest);
    }
    while rest > 0
        invariant
            val == bits_value(res@) + pow2(res.len() as nat) * rest,
            res.len() > 0 && rest == 0 ==> res@.last(),
            val > 0,
            rest == 0 ==> res.len() > 0,
        decreases rest,
    {
        let ghost before = res@;
        let ghost old_rest = rest;
        res.push((rest % 2) == 1);
        rest /= 2;
        proof {
            let len = before.len();
            assert(res@.drop_last() =~= before);
            lemma_pow2_unfold(len + 1);
            assert(pow2(len) * old_rest == pow2(len + 1) * rest + (if old_rest % 2 == 1 {
                pow2(len)
            } else {
                0
            })) by (nonlinear_arith)
                requires
                    pow2(len + 1) == 2 * pow2(len),
                    rest == old_rest / 2,
            ;
        }
    }
    let ghost ascending = res@;
    reverse(&mut res);
    proof {
        assert(res@.reverse() =~= ascending);
    }
    res
}

/// Reverses the order of the elements of `v`.
fn reverse(v: &mut Vec<bool>)
    ensures
        final(v)@ == old(v)@.reverse(),
{
    let n = v.len();
    let mut i: usize = 0;
    while i < n / 2
        invariant
            n == v.len(),
            n == old(v).len(),
            i <= n / 2,
            forall|k: int| 0 <= k < i ==> v[k] == old(v)[n - 1 - k],
            forall|k: int| 0 <= k < i ==> v[n - 1 - k] == old(v)[k],
            forall|k: int| i <= k < n - i ==> v[k] == old(v)[k],
        decreases n / 2 - i,
    {
        let low = v[i];
        let high = v[n - 1 - i];
        v.set(i, high);
        v.set(n - 1 - i, low);
        i += 1;
    }
    assert(v@ =~= old(v)@.reverse());
}

} // verus!
