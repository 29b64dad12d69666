//! Number theory on `u64`: greatest common divisors, modular inverses and
//! binary expansions.

use vstd::arithmetic::div_mod::{
    lemma_fundamental_div_mod,
    lemma_mod_multiples_vanish,
    lemma_small_mod,
};
use vstd::arithmetic::power2::{
    lemma_pow2_pos,
    lemma_pow2_strictly_increases,
    lemma_pow2_unfold,
    pow2,
};
use vstd::prelude::*;

pub mod factors;
pub mod prime_factors;

verus! {

/// `d` divides `n`.
pub open spec fn divides(d: nat, n: nat) -> bool {
    d > 0 && n % d == 0
}

/// `g` is the greatest among the common divisors of `a` and `b`.
pub open spec fn is_gcd(a: nat, b: nat, g: nat) -> bool {
    &&& divides(g, a)
    &&& divides(g, b)
    &&& forall|d: nat| divides(d, a) && divides(d, b) ==> d <= g
}

/// A divisor of `b` divides `a` exactly when it divides the remainder of `a`
/// by `b`.
pub proof fn lemma_divides_remainder(a: nat, b: nat, d: nat)
    requires
        b > 0,
        divides(d, b),
    ensures
        divides(d, a) <==> divides(d, a % b),
{
    let q = (a / b) as int;
    let k = (b / d) as int;
    lemma_fundamental_div_mod(a as int, b as int);
    lemma_fundamental_div_mod(b as int, d as int);
    assert(a == (k * q) * d + a % b) by (nonlinear_arith)
        requires
            a == b * q + a % b,
            b == d * k,
    ;
    lemma_mod_multiples_vanish(k * q, (a % b) as int, d as int);
    assert(d * (k * q) == (k * q) * d) by (nonlinear_arith);
}

/// The greatest common divisor of `a` and `b`, which are not both zero.
pub fn gcd(a: u64, b: u64) -> (g: u64)
    requires
        a > 0 || b > 0,
    ensures
        is_gcd(a as nat, b as nat, g as nat),
{
    let mut x = a;
    let mut y = b;
    if x < y {
        std::mem::swap(&mut x, &mut y);
    }
    while y != 0
        invariant
            x > 0,
            forall|d: nat|
                (divides(d, x as nat) && divides(d, y as nat)) <==> (divides(d, a as nat)
                    && divides(d, b as nat)),
        decreases y,
    {
        proof {
            assert forall|d: nat|
                (divides(d, y as nat) && divides(d, (x % y) as nat)) <==> (divides(d, a as nat)
                    && divides(d, b as nat)) by {
                if divides(d, y as nat) {
                    lemma_divides_remainder(x as nat, y as nat, d);
                }
            }
        }
        x %= y;
        std::mem::swap(&mut x, &mut y);
    }
    proof {
        assert(divides(x as nat, x as nat) && divides(x as nat, 0nat)) by {
            vstd::arithmetic::div_mod::lemma_mod_self_0(x as int);
        }
        assert forall|d: nat| divides(d, a as nat) && divides(d, b as nat) implies d <= x by {
            assert(divides(d, x as nat));
            if d > x {
                lemma_small_mod(x as nat, d);
            }
        }
    }
    x
}

/// The absolute value of `x`.
pub open spec fn abs(x: int) -> int {
    if x < 0 {
        -x
    } else {
        x
    }
}

/// The greatest common divisor `g` of `a` and `b` together with coefficients
/// `k1` and `k2` for which `k1 * a + k2 * b == g`, as `(g, k1, k2)`.
///
/// The coefficients are those of the extended Euclidean algorithm, which are
/// small: `k1` is no larger than `b` and `k2` no larger than `a` in absolute
/// value (or than 1, where that is more).
pub fn gcd_ext(a: u64, b: u64) -> (res: (u64, i64, i64))
    requires
        a <= i64::MAX,
        b <= i64::MAX,
    ensures
        a > 0 || b > 0 ==> is_gcd(a as nat, b as nat, res.0 as nat),
        a == 0 && b == 0 ==> res.0 == 0,
        res.1 * a + res.2 * b == res.0,
        abs(res.1 as int) <= b || abs(res.1 as int) <= 1,
        abs(res.2 as int) <= a || abs(res.2 as int) <= 1,
{
    let mut r: (u64, u64) = (a, b);
    let mut k1: (i64, i64) = (1, 0);
    let mut k2: (i64, i64) = (0, 1);
    let ghost mut even = true;
    proof {
        assert(abs(k2.1 as int) == 1 && abs(k2.0 as int) == 0);
        assert(abs(k1.1 as int) == 0 && abs(k1.0 as int) == 1);
        assert(1 * (a as int) + 0 * (b as int) == a);
        assert(0 * (a as int) + 1 * (b as int) == b);
    }
    while r.1 != 0
        invariant
            a <= i64::MAX,
            b <= i64::MAX,
            r.0 <= i64::MAX,
            r.1 <= i64::MAX,
            r.0 == k1.0 * a + k2.0 * b,
            r.1 == k1.1 * a + k2.1 * b,
            forall|d: nat|
                (divides(d, r.0 as nat) && divides(d, r.1 as nat)) <==> (divides(d, a as nat)
                    && divides(d, b as nat)),
            even ==> k1.0 >= 0 && k1.1 <= 0 && k2.0 <= 0 && k2.1 >= 0,
            !even ==> k1.0 <= 0 && k1.1 >= 0 && k2.0 >= 0 && k2.1 <= 0,
            abs(k1.1 as int) * r.0 + abs(k1.0 as int) * r.1 == b,
            abs(k2.1 as int) * r.0 + abs(k2.0 as int) * r.1 == a,
            abs(k1.0 as int) <= b || abs(k1.0 as int) <= 1,
            abs(k2.0 as int) <= a || abs(k2.0 as int) <= 1,
            r.0 == 0 ==> k1.1 == 0 && k2.1 == 1,
        decreases r.1,
    {
        let quot = r.0 / r.1;
        let ghost r0 = r.0 as int;
        let ghost r1 = r.1 as int;
        let ghost s0 = k1.0 as int;
        let ghost s1 = k1.1 as int;
        let ghost t0 = k2.0 as int;
        let ghost t1 = k2.1 as int;
        let ghost q = quot as int;
        proof {
            lemma_fundamental_div_mod(r0, r1);
            assert(q * r1 == r1 * q) by (nonlinear_arith);
            assert(0 <= q * r1 <= r0);
            assert(r0 - q * r1 == r0 % r1);
            assert forall|d: nat|
                (divides(d, r1 as nat) && divides(d, (r0 % r1) as nat)) <==> (divides(d, a as nat)
                    && divides(d, b as nat)) by {
                if divides(d, r1 as nat) {
                    lemma_divides_remainder(r0 as nat, r1 as nat, d);
                }
            }
            // The next coefficients, in absolute value, are the sums that the
            // alternating signs make of them.
            assert(abs(s0 - q * s1) == abs(s0) + q * abs(s1)) by (nonlinear_arith)
                requires
                    q >= 0,
                    (s0 >= 0 && s1 <= 0) || (s0 <= 0 && s1 >= 0),
            ;
            assert(abs(t0 - q * t1) == abs(t0) + q * abs(t1)) by (nonlinear_arith)
                requires
                    q >= 0,
                    (t0 >= 0 && t1 <= 0) || (t0 <= 0 && t1 >= 0),
            ;
            assert((abs(s0) + q * abs(s1)) * r1 + abs(s1) * (r0 - q * r1) == b)
                by (nonlinear_arith)
                requires
                    abs(s1) * r0 + abs(s0) * r1 == b,
            ;
            assert((abs(t0) + q * abs(t1)) * r1 + abs(t1) * (r0 - q * r1) == a)
                by (nonlinear_arith)
                requires
                    abs(t1) * r0 + abs(t0) * r1 == a,
            ;
            assert(abs(s0) + q * abs(s1) <= b) by (nonlinear_arith)
                requires
                    (abs(s0) + q * abs(s1)) * r1 + abs(s1) * (r0 - q * r1) == b,
                    r1 >= 1,
                    r0 - q * r1 >= 0,
                    abs(s1) >= 0,
                    abs(s0) + q * abs(s1) >= 0,
            ;
            assert(abs(t0) + q * abs(t1) <= a) by (nonlinear_arith)
                requires
                    (abs(t0) + q * abs(t1)) * r1 + abs(t1) * (r0 - q * r1) == a,
                    r1 >= 1,
                    r0 - q * r1 >= 0,
                    abs(t1) >= 0,
                    abs(t0) + q * abs(t1) >= 0,
            ;
            assert(abs(q * s1) == q * abs(s1)) by (nonlinear_arith)
                requires
                    q >= 0,
            ;
            assert(abs(q * t1) == q * abs(t1)) by (nonlinear_arith)
                requires
                    q >= 0,
            ;
            assert((even && q * s1 <= 0 && q * t1 >= 0) || (!even && q * s1 >= 0 && q * t1 <= 0))
                by (nonlinear_arith)
                requires
                    q >= 0,
                    even ==> s1 <= 0 && t1 >= 0,
                    !even ==> s1 >= 0 && t1 <= 0,
            ;
            assert(r0 - q * r1 == (s0 - q * s1) * a + (t0 - q * t1) * b) by (nonlinear_arith)
                requires
                    r0 == s0 * a + t0 * b,
                    r1 == s1 * a + t1 * b,
            ;
            assert(abs(s1) <= b || abs(s1) <= 1) by {
                if r0 >= 1 {
                    assert(abs(s1) <= b) by (nonlinear_arith)
                        requires
                            abs(s1) * r0 + abs(s0) * r1 == b,
                            r0 >= 1,
                            r1 >= 0,
                            abs(s1) >= 0,
                            abs(s0) >= 0,
                    ;
                }
            }
            assert(abs(t1) <= a || abs(t1) <= 1) by {
                if r0 >= 1 {
                    assert(abs(t1) <= a) by (nonlinear_arith)
                        requires
                            abs(t1) * r0 + abs(t0) * r1 == a,
                            r0 >= 1,
                            r1 >= 0,
                            abs(t1) >= 0,
                            abs(t0) >= 0,
                    ;
                }
            }
        }
        r = (r.1, r.0 - quot * r.1);
        let quot: i64 = quot as i64;
        k1 = (k1.1, k1.0 - quot * k1.1);
        k2 = (k2.1, k2.0 - quot * k2.1);
        proof {
            even = !even;
        }
    }
    proof {
        let g = r.0 as nat;
        if a > 0 || b > 0 {
            if g == 0 {
                let d = if a > 0 {
                    a as nat
                } else {
                    b as nat
                };
                vstd::arithmetic::div_mod::lemma_mod_self_0(d as int);
                assert(divides((2 * (a + b)) as nat, 0nat));
                assert(divides((2 * (a + b)) as nat, a as nat));
                lemma_small_mod(a as nat, (2 * (a + b)) as nat);
                lemma_small_mod(b as nat, (2 * (a + b)) as nat);
                assert(false);
            }
            vstd::arithmetic::div_mod::lemma_mod_self_0(g as int);
            assert(divides(g, g) && divides(g, 0nat));
            assert forall|d: nat| divides(d, a as nat) && divides(d, b as nat) implies d <= g by {
                assert(divides(d, g));
                if d > g {
                    lemma_small_mod(g, d);
                }
            }
        }
    }
    (r.0, k1.0, k2.0)
}

/// The inverse of `val` modulo `m`: the one number below `m` whose product
/// with `val` leaves the remainder of 1 modulo `m`. `val` and `m` have no
/// common divisor but 1.
pub fn inverse(val: u64, m: u64) -> (inv: u64)
    requires
        m > 0,
        val <= i64::MAX,
        m <= i64::MAX,
        is_gcd(val as nat, m as nat, 1),
    ensures
        inv < m,
        (inv * val) % (m as int) == 1int % (m as int),
{
    let (g, k1, _k2) = gcd_ext(val, m);
    let ghost k2 = _k2 as int;
    proof {
        assert(g == 1) by {
            assert(divides(1nat, val as nat) && divides(1nat, m as nat));
            assert(divides(g as nat, val as nat) && divides(g as nat, m as nat));
        }
        // k1 * val is 1 up to a multiple of m.
        assert(k1 * val == m * (-k2) + 1) by (nonlinear_arith)
            requires
                k1 * val + k2 * m == 1,
        ;
        lemma_mod_multiples_vanish(-k2, 1, m as int);
    }
    let inv = if k1 >= 0 {
        (k1 as u64) % m
    } else {
        let res = (-k1) as u64 % m;
        if res == 0 {
            0
        } else {
            m - res
        }
    };
    proof {
        let mi = m as int;
        // In both cases inv is k1 modulo m.
        assert(inv as int == (k1 as int) % mi) by {
            if k1 < 0 {
                let res = (-k1) % mi;
                lemma_fundamental_div_mod(-(k1 as int), mi);
                let q = (-k1) / mi;
                if res == 0 {
                    assert(k1 as int == (-q) * mi + 0) by (nonlinear_arith)
                        requires
                            -(k1 as int) == mi * q + 0,
                    ;
                    vstd::arithmetic::div_mod::lemma_fundamental_div_mod_converse(
                        k1 as int,
                        mi,
                        -q,
                        0,
                    );
                } else {
                    assert(k1 as int == (-q - 1) * mi + (mi - res)) by (nonlinear_arith)
                        requires
                            -(k1 as int) == mi * q + res,
                    ;
                    vstd::arithmetic::div_mod::lemma_fundamental_div_mod_converse(
                        k1 as int,
                        mi,
                        -q - 1,
                        mi - res,
                    );
                }
            }
        }
        vstd::arithmetic::div_mod::lemma_mul_mod_noop_left(k1 as int, val as int, mi);
    }
    inv
}

/// The number that `bits` spell in binary, the least significant bit first.
pub open spec fn bits_value(bits: Seq<bool>) -> nat
    decreases bits.len(),
{
    if bits.len() == 0 {
        0
    } else {
        bits_value(bits.drop_last()) + (if bits.last() {
            pow2((bits.len() - 1) as nat)
        } else {
            0
        })
    }
}

/// The binary expansion of `val`, the least significant bit first and the
/// most significant one bit last; empty for zero.
pub fn num_to_bits(val: u64) -> (res: Vec<bool>)
    ensures
        bits_value(res@) == val,
        res.len() > 0 ==> res@.last(),
        res.len() <= 64,
{
    let mut rest = val;
    let mut res: Vec<bool> = Vec::new();
    proof {
        vstd::arithmetic::power2::lemma2_to64();
        assert(pow2(0) * rest == rest);
    }
    while rest > 0
        invariant
            val == bits_value(res@) + pow2(res.len() as nat) * rest,
            res.len() > 0 && rest == 0 ==> res@.last(),
            res.len() <= 64,
            rest > 0 ==> res.len() < 64,
        decreases rest,
    {
        let ghost before = res@;
        let ghost old_rest = rest;
        res.push((rest % 2) == 1);
        rest /= 2;
        proof {
            let len = before.len();
            assert(res@.drop_last() =~= before);
            lemma_pow2_unfold(len + 1);
            assert(pow2(len) * old_rest == pow2(len + 1) * rest + (if old_rest % 2 == 1 {
                pow2(len)
            } else {
                0
            })) by (nonlinear_arith)
                requires
                    pow2(len + 1) == 2 * pow2(len),
                    rest == old_rest / 2,
            ;
            if rest > 0 && len + 1 >= 64 {
                lemma_pow2_pos(len + 1);
                assert(pow2(len + 1) * rest >= pow2(len + 1)) by (nonlinear_arith)
                    requires
                        rest >= 1,
                        pow2(len + 1) > 0,
                ;
                vstd::arithmetic::power2::lemma2_to64();
                if len + 1 > 64 {
                    lemma_pow2_strictly_increases(64, len + 1);
                }
                assert(false);
            }
        }
    }
    res
}

/// A prefix of `bits` spells no more than all of `bits`.
pub proof fn lemma_bits_value_prefix(bits: Seq<bool>, len: int)
    requires
        0 <= len <= bits.len(),
    ensures
        bits_value(bits.take(len)) <= bits_value(bits),
    decreases bits.len() - len,
{
    if len < bits.len() {
        lemma_bits_value_prefix(bits.drop_last(), len);
        assert(bits.drop_last().take(len) =~= bits.take(len));
    } else {
        assert(bits.take(len) =~= bits);
    }
}

/// `u64::saturating_mul` of std: the product of `x` and `y`, or `u64::MAX`
/// where the product is larger than that.
pub assume_specification[ u64::saturating_mul ](x: u64, y: u64) -> (r: u64)
    ensures
        r == (if x * y > u64::MAX {
            u64::MAX as int
        } else {
            x * y
        }),
;

/// The number that `bits` spell in binary, the least significant bit first.
pub fn bits_to_num(bits: &[bool]) -> (val: u64)
    requires
        bits_value(bits@) <= u64::MAX,
    ensures
        val == bits_value(bits@),
{
    let mut val: u64 = 0;
    let mut pow_2: u64 = 1;
    let mut i: usize = 0;
    proof {
        vstd::arithmetic::power2::lemma2_to64();
        assert(bits@.take(0) =~= Seq::<bool>::empty());
    }
    while i < bits.len()
        invariant
            i <= bits.len(),
            val == bits_value(bits@.take(i as int)),
            pow_2 == (if i < 64 {
                pow2(i as nat)
            } else {
                u64::MAX as nat
            }),
            bits_value(bits@) <= u64::MAX,
        decreases bits.len() - i,
    {
        let bit = bits[i];
        proof {
            let next = bits@.take(i + 1);
            assert(next.drop_last() =~= bits@.take(i as int));
            lemma_bits_value_prefix(bits@, i + 1);
            vstd::arithmetic::power2::lemma2_to64();
            vstd::arithmetic::power2::lemma2_to64_rest();
            if bit && i >= 64 {
                if i > 64 {
                    lemma_pow2_strictly_increases(64, i as nat);
                }
                assert(false);
            }
            lemma_pow2_unfold((i + 1) as nat);
        }
        if bit == true {
            val += pow_2;
        }
        pow_2 = pow_2.saturating_mul(2);
        i += 1;
    }
    proof {
        assert(bits@.take(bits.len() as int) =~= bits@);
    }
    val
}

} // verus!
