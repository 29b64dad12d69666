//! The prime factorisation of all numbers up to a limit, by a sieve that
//! records the largest prime factor of each.

use vstd::arithmetic::div_mod::{
    lemma_fundamental_div_mod,
    lemma_fundamental_div_mod_converse,
    lemma_mod_self_0,
    lemma_small_mod,
};
use vstd::prelude::*;

verus! {

/// `n` is a prime number.
pub open spec fn is_prime(n: nat) -> bool {
    n >= 2 && forall|d: nat| 1 < d < n ==> #[trigger] (n % d) != 0
}

/// `p` is the largest prime number that divides `n`.
pub open spec fn is_largest_prime_factor(n: nat, p: nat) -> bool {
    &&& is_prime(p)
    &&& n % p == 0
    &&& forall|q: nat| is_prime(q) && #[trigger] (n % q) == 0 ==> q <= p
}

/// The largest prime factor of `n`, which is 2 or more.
pub open spec fn largest_prime_factor(n: nat) -> nat {
    choose|p: nat| is_largest_prime_factor(n, p)
}

/// How often `p` divides `n`.
pub open spec fn multiplicity(n: nat, p: nat) -> nat
    decreases n,
{
    if n >= 1 && p >= 2 && n % p == 0 {
        proof {
            lemma_quotient_smaller(n, p);
        }
        1 + multiplicity(n / p, p)
    } else {
        0
    }
}

/// What is left of `n` when `p` is divided out as often as it divides.
pub open spec fn without(n: nat, p: nat) -> nat
    decreases n,
{
    if n >= 1 && p >= 2 && n % p == 0 {
        proof {
            lemma_quotient_smaller(n, p);
        }
        without(n / p, p)
    } else {
        n
    }
}

/// The prime factorisation of `n`: its prime factors from the largest to the
/// smallest, each after the number of times that it divides `n`.
pub open spec fn factorisation(n: nat) -> Seq<(nat, nat)>
    decreases n,
{
    if n <= 1 {
        Seq::empty()
    } else {
        let p = largest_prime_factor(n);
        if 2 <= p && n % p == 0 {
            proof {
                lemma_without(n, p);
            }
            seq![(multiplicity(n, p), p)] + factorisation(without(n, p))
        } else {
            Seq::empty()
        }
    }
}

/// Dividing out a factor of 2 or more leaves less, and no more than half.
pub proof fn lemma_quotient_smaller(n: nat, p: nat)
    requires
        n >= 1,
        p >= 2,
        n % p == 0,
    ensures
        1 <= n / p < n,
        (n / p) * p == n,
        n / p + 1 <= n,
{
    lemma_fundamental_div_mod(n as int, p as int);
    let q = n / p;
    assert(q * p == p * q) by (nonlinear_arith);
    assert(q >= 1 && q < n) by (nonlinear_arith)
        requires
            n == q * p,
            n >= 1,
            p >= 2,
            q >= 0,
    ;
}

/// What is left after dividing `p` out is at least 1, at most `n`, and is
/// not divided by `p`.
pub proof fn lemma_without(n: nat, p: nat)
    requires
        n >= 1,
        p >= 2,
    ensures
        1 <= without(n, p) <= n,
        without(n, p) % p != 0,
        n % p == 0 ==> without(n, p) < n,
    decreases n,
{
    if n % p == 0 {
        lemma_quotient_smaller(n, p);
        lemma_without(n / p, p);
    }
}

/// A divisor of a divisor is a divisor.
proof fn lemma_divides_transitive(a: nat, b: nat, c: nat)
    requires
        a > 0,
        b > 0,
        b % a == 0,
        c % b == 0,
    ensures
        c % a == 0,
{
    lemma_fundamental_div_mod(b as int, a as int);
    lemma_fundamental_div_mod(c as int, b as int);
    let x = (b / a) as int;
    let y = (c / b) as int;
    assert(c == (y * x) * a + 0) by (nonlinear_arith)
        requires
            b == a * x,
            c == b * y,
    ;
    lemma_fundamental_div_mod_converse(c as int, a as int, y * x, 0);
}

/// Every number from 2 on has a prime factor.
proof fn lemma_has_prime_factor(n: nat) -> (p: nat)
    requires
        n >= 2,
    ensures
        is_prime(p),
        n % p == 0,
        p <= n,
    decreases n,
{
    if is_prime(n) {
        lemma_mod_self_0(n as int);
        n
    } else {
        let d = choose|d: nat| 1 < d < n && #[trigger] (n % d) == 0;
        let p = lemma_has_prime_factor(d);
        lemma_divides_transitive(p, d, n);
        p
    }
}

/// A divisor of a positive number is no larger than the number.
proof fn lemma_divisor_bound(n: nat, d: nat)
    requires
        n >= 1,
        d >= 1,
        n % d == 0,
    ensures
        d <= n,
{
    if d > n {
        lemma_small_mod(n, d);
    }
}

/// Every number from 2 on has a largest prime factor, and only one.
pub proof fn lemma_largest_prime_factor(n: nat)
    requires
        n >= 2,
    ensures
        is_largest_prime_factor(n, largest_prime_factor(n)),
        2 <= largest_prime_factor(n) <= n,
        forall|p: nat| is_largest_prime_factor(n, p) ==> p == largest_prime_factor(n),
{
    let some = lemma_has_prime_factor(n);
    let p = lemma_largest_below(n, n + 1, some);
    assert forall|q: nat| is_prime(q) && #[trigger] (n % q) == 0 implies q <= p by {
        lemma_divisor_bound(n, q);
    }
    assert(is_largest_prime_factor(n, p));
    lemma_divisor_bound(n, largest_prime_factor(n));
}

/// Among the prime factors of `n` below `bound`, of which `some` is one,
/// there is a largest.
proof fn lemma_largest_below(n: nat, bound: nat, some: nat) -> (p: nat)
    requires
        is_prime(some),
        n % some == 0,
        some < bound,
    ensures
        is_prime(p),
        n % p == 0,
        p < bound,
        forall|q: nat| is_prime(q) && #[trigger] (n % q) == 0 && q < bound ==> q <= p,
    decreases bound,
{
    let top = (bound - 1) as nat;
    if is_prime(top) && n % top == 0 {
        top
    } else {
        lemma_largest_below(n, top, some)
    }
}

/// The sieve has reached `bound`: `entry` is the largest prime factor of `v`
/// below `bound`, or 0 where `v` has none there.
pub open spec fn sieved(v: nat, entry: nat, bound: nat) -> bool {
    if exists|q: nat| is_prime(q) && #[trigger] (v % q) == 0 && q < bound {
        &&& is_prime(entry)
        &&& v % entry == 0
        &&& entry < bound
        &&& forall|q: nat| is_prime(q) && #[trigger] (v % q) == 0 && q < bound ==> q <= entry
    } else {
        entry == 0
    }
}

/// Raising the bound over a number that is no prime factor of `v` changes
/// nothing for `v`.
proof fn lemma_sieved_step(v: nat, entry: nat, bound: nat)
    requires
        sieved(v, entry, bound),
        !(is_prime(bound) && v % bound == 0),
    ensures
        sieved(v, entry, bound + 1),
{
    if exists|q: nat| is_prime(q) && #[trigger] (v % q) == 0 && q < bound + 1 {
        let q = choose|q: nat| is_prime(q) && #[trigger] (v % q) == 0 && q < bound + 1;
        assert(is_prime(q) && v % q == 0 && q < bound);
    }
}

/// Where the sieve has reached a prime factor of `v`, that is the entry.
proof fn lemma_sieved_hit(v: nat, bound: nat)
    requires
        is_prime(bound),
        v % bound == 0,
    ensures
        sieved(v, bound, bound + 1),
{
    assert(is_prime(bound) && v % bound == 0 && bound < bound + 1);
}

/// A sieve that has passed `v` knows the largest prime factor of `v`.
proof fn lemma_sieved_done(v: nat, entry: nat, bound: nat)
    requires
        v >= 2,
        bound > v,
        sieved(v, entry, bound),
    ensures
        entry == largest_prime_factor(v),
{
    let some = lemma_has_prime_factor(v);
    assert(is_prime(some) && v % some == 0 && some < bound);
    assert forall|q: nat| is_prime(q) && #[trigger] (v % q) == 0 implies q <= entry by {
        lemma_divisor_bound(v, q);
    }
    lemma_largest_prime_factor(v);
}

/// A number without a prime factor below itself is prime.
proof fn lemma_unsieved_is_prime(v: nat)
    requires
        v >= 2,
        sieved(v, 0, v),
    ensures
        is_prime(v),
{
    if !is_prime(v) {
        let d = choose|d: nat| 1 < d < v && #[trigger] (v % d) == 0;
        let p = lemma_has_prime_factor(d);
        lemma_divides_transitive(p, d, v);
        assert(is_prime(p) && v % p == 0 && p < v);
    }
}

/// No even number above 2 is prime.
proof fn lemma_even_not_prime(v: nat)
    requires
        v > 2,
        v % 2 == 0,
    ensures
        !is_prime(v),
{
    assert(1 < 2 < v && v % 2 == 0);
}

/// The largest prime factor of every number up to a limit.
pub struct PrimeFactors {
    /// Maps a number to its largest prime factor.
    factor: Vec<u64>,
}

impl PrimeFactors {
    /// The largest number that the sieve covers.
    pub closed spec fn limit(&self) -> int {
        self.factor.len() - 1
    }

    /// The sieve covers the numbers up to a limit between 1 and a million,
    /// and knows the largest prime factor of each from 2 on.
    pub closed spec fn wf(&self) -> bool {
        &&& 2 <= self.factor.len() <= 1_000_001
        &&& self.factor[0] == 0
        &&& self.factor[1] == 1
        &&& forall|v: int|
            2 <= v < self.factor.len() ==> #[trigger] self.factor[v] == largest_prime_factor(
                v as nat,
            )
    }

    /// The sieve for the numbers up to `max_val`, which is between 1 and a
    /// million.
    pub fn new(max_val: u64) -> (sieve: Self)
        requires
            1 <= max_val <= 1_000_000,
        ensures
            sieve.wf(),
            sieve.limit() == max_val,
    {
        let mut prime_factors: Vec<u64> = vec![0u64; (max_val + 1) as usize];
        prime_factors.set(0, 0);
        prime_factors.set(1, 1);
        let mut start: u64 = 2;
        proof {
            assert forall|v: int| 2 <= v <= max_val implies sieved(
                v as nat,
                #[trigger] prime_factors[v] as nat,
                2,
            ) by {
                if exists|q: nat| is_prime(q) && #[trigger] ((v as nat) % q) == 0 && q < 2 {
                    let q = choose|q: nat| is_prime(q) && #[trigger] ((v as nat) % q) == 0 && q < 2;
                    assert(false);
                }
            }
        }
        while start <= max_val
            invariant
                1 <= max_val <= 1_000_000,
                2 <= start <= max_val + 2,
                start == 2 || start % 2 == 1,
                prime_factors.len() == max_val + 1,
                prime_factors[0] == 0,
                prime_factors[1] == 1,
                forall|v: int|
                    2 <= v <= max_val ==> sieved(
                        v as nat,
                        #[trigger] prime_factors[v] as nat,
                        start as nat,
                    ),
            decreases max_val + 2 - start,
        {
            if prime_factors[start as usize] == 0 {
                proof {
                    lemma_unsieved_is_prime(start as nat);
                    lemma_mod_self_0(start as int);
                }
                prime_factors.set(start as usize, start);
                let mut val = start * 2;
                proof {
                    vstd::arithmetic::div_mod::lemma_mod_multiples_basic(2, start as int);
                    assert forall|v: int| 2 <= v <= max_val && v < val implies sieved(
                        v as nat,
                        #[trigger] prime_factors[v] as nat,
                        (start + 1) as nat,
                    ) by {
                        if v == start {
                            lemma_sieved_hit(v as nat, start as nat);
                        } else {
                            if v < start {
                                lemma_small_mod(v as nat, start as nat);
                            } else {
                                lemma_between(start as int, v, start as int);
                            }
                            lemma_sieved_step(v as nat, prime_factors[v] as nat, start as nat);
                        }
                    }
                }
                while val <= max_val
                    invariant
                        1 <= max_val <= 1_000_000,
                        2 <= start <= max_val,
                        is_prime(start as nat),
                        2 * start <= val <= max_val + start,
                        val % start == 0,
                        prime_factors.len() == max_val + 1,
                        prime_factors[0] == 0,
                        prime_factors[1] == 1,
                        forall|v: int|
                            2 <= v <= max_val && v < val ==> sieved(
                                v as nat,
                                #[trigger] prime_factors[v] as nat,
                                (start + 1) as nat,
                            ),
                        forall|v: int|
                            val <= v <= max_val ==> sieved(
                                v as nat,
                                #[trigger] prime_factors[v] as nat,
                                start as nat,
                            ),
                    decreases max_val + start - val,
                {
                    let ghost before = prime_factors@;
                    prime_factors.set(val as usize, start);
                    proof {
                        lemma_sieved_hit(val as nat, start as nat);
                        vstd::arithmetic::div_mod::lemma_mod_adds(
                            val as int,
                            start as int,
                            start as int,
                        );
                        assert forall|v: int|
                            2 <= v <= max_val && v < val + start implies sieved(
                            v as nat,
                            #[trigger] prime_factors[v] as nat,
                            (start + 1) as nat,
                        ) by {
                            if v > val {
                                lemma_between(val as int, v, start as int);
                                assert(prime_factors[v] == before[v]);
                                lemma_sieved_step(v as nat, before[v] as nat, start as nat);
                            } else if v < val {
                                assert(prime_factors[v] == before[v]);
                            }
                        }
                        assert forall|v: int| val + start <= v <= max_val implies sieved(
                            v as nat,
                            #[trigger] prime_factors[v] as nat,
                            start as nat,
                        ) by {
                            assert(prime_factors[v] == before[v]);
                        }
                    }
                    val += start;
                }
            } else {
                proof {
                    // A number with a smaller prime factor is not prime.
                    let entry = prime_factors[start as int] as nat;
                    assert(sieved(start as nat, entry, start as nat));
                    assert(1 < entry < start && (start as nat) % entry == 0);
                    assert(!is_prime(start as nat));
                    assert forall|v: int| 2 <= v <= max_val implies sieved(
                        v as nat,
                        #[trigger] prime_factors[v] as nat,
                        (start + 1) as nat,
                    ) by {
                        lemma_sieved_step(v as nat, prime_factors[v] as nat, start as nat);
                    }
                }
            }
            if start == 2 {
                start = 3;
            } else {
                proof {
                    lemma_even_not_prime((start + 1) as nat);
                    assert forall|v: int| 2 <= v <= max_val implies sieved(
                        v as nat,
                        #[trigger] prime_factors[v] as nat,
                        (start + 2) as nat,
                    ) by {
                        lemma_sieved_step(v as nat, prime_factors[v] as nat, (start + 1) as nat);
                    }
                }
                start += 2;
            }
        }
        proof {
            assert forall|v: int| 2 <= v < prime_factors.len() implies #[trigger] prime_factors[v]
                == largest_prime_factor(v as nat) by {
                lemma_sieved_done(v as nat, prime_factors[v] as nat, start as nat);
            }
        }
        Self { factor: prime_factors }
    }

    /// The greatest prime factor of `val`; `val` itself where `val` is 0 or 1.
    pub fn prime_factor(&self, val: u64) -> (p: u64)
        requires
            self.wf(),
            val <= self.limit(),
        ensures
            val >= 2 ==> p == largest_prime_factor(val as nat),
            val < 2 ==> p == val,
    {
        self.factor[val as usize]
    }

    /// The prime factors of `val`, from the largest to the smallest, each
    /// after the number of times that it divides `val`.
    pub fn prime_factors(&self, val: u64) -> (factors: PrimeFactorsIter<'_>)
        requires
            self.wf(),
            0 < val <= self.limit(),
        ensures
            factors.wf(),
            factors.current() == val,
    {
        PrimeFactorsIter { prime_factors: self, cur_val: val }
    }

    /// Tells whether `val` is a prime number.
    pub fn is_prime(&self, val: u64) -> (prime: bool)
        requires
            self.wf(),
            val <= self.limit(),
        ensures
            prime == is_prime(val as nat),
    {
        proof {
            if val >= 2 {
                lemma_largest_prime_factor(val as nat);
                if is_prime(val as nat) {
                    lemma_mod_self_0(val as int);
                }
            }
        }
        val >= 2 && self.factor[val as usize] == val
    }
}

/// Between two multiples of `step` that follow each other lies no third.
proof fn lemma_between(multiple: int, v: int, step: int)
    requires
        step > 0,
        multiple % step == 0,
        multiple < v < multiple + step,
    ensures
        v % step != 0,
{
    lemma_fundamental_div_mod(multiple, step);
    assert(step * (multiple / step) == (multiple / step) * step) by (nonlinear_arith);
    lemma_fundamental_div_mod_converse(v, step, multiple / step, v - multiple);
}

/// A walk down the prime factors of a number.
pub struct PrimeFactorsIter<'a> {
    prime_factors: &'a PrimeFactors,
    cur_val: u64,
}

impl<'a> PrimeFactorsIter<'a> {
    /// What is left to factorise.
    pub closed spec fn current(&self) -> u64 {
        self.cur_val
    }

    /// The sieve covers what is left to factorise, which is not zero.
    pub closed spec fn wf(&self) -> bool {
        &&& self.prime_factors.wf()
        &&& 1 <= self.cur_val <= self.prime_factors.limit()
    }

    /// The largest prime factor of what is left, after the number of times
    /// that it divides it; `None` when 1 is left. The factor is divided out.
    pub fn next(&mut self) -> (item: Option<(usize, u64)>)
        requires
            old(self).wf(),
        ensures
            final(self).wf(),
            old(self).current() == 1 ==> item is None && final(self).current() == 1,
            old(self).current() > 1 ==> item == Some(
                (
                    multiplicity(
                        old(self).current() as nat,
                        largest_prime_factor(old(self).current() as nat),
                    ) as usize,
                    largest_prime_factor(old(self).current() as nat) as u64,
                ),
            ),
            old(self).current() > 1 ==> final(self).current() == without(
                old(self).current() as nat,
                largest_prime_factor(old(self).current() as nat),
            ),
    {
        if self.cur_val <= 1 {
            return None;
        }
        let ghost whole = self.cur_val as nat;
        let ghost p = largest_prime_factor(whole);
        let mut prime = self.prime_factors.factor[self.cur_val as usize];
        let mut cnt: usize = 0;
        proof {
            lemma_largest_prime_factor(whole);
        }
        loop
            invariant_except_break
                2 <= self.cur_val <= whole,
                is_largest_prime_factor(self.cur_val as nat, p),
                cnt + self.cur_val <= whole,
                multiplicity(whole, p) == cnt + multiplicity(self.cur_val as nat, p),
                without(whole, p) == without(self.cur_val as nat, p),
            invariant
                self.prime_factors == old(self).prime_factors,
                self.prime_factors.wf(),
                whole == old(self).cur_val,
                whole <= self.prime_factors.limit(),
                prime == p,
                2 <= p,
            ensures
                1 <= self.cur_val <= self.prime_factors.limit(),
                cnt == multiplicity(whole, p),
                self.cur_val == without(whole, p),
            decreases self.cur_val,
        {
            let ghost before = self.cur_val as nat;
            proof {
                lemma_quotient_smaller(before, p);
            }
            cnt += 1;
            self.cur_val /= prime;
            let new_prime = self.prime_factors.factor[self.cur_val as usize];
            let ghost after = self.cur_val as nat;
            proof {
                assert(multiplicity(before, p) == 1 + multiplicity(after, p));
                assert(without(before, p) == without(after, p));
                if after >= 2 {
                    lemma_largest_prime_factor(after);
                    let q = largest_prime_factor(after);
                    assert(new_prime == q);
                    // A prime factor of the quotient is one of the number.
                    assert(before % after == 0) by {
                        assert(before == p * after + 0) by (nonlinear_arith)
                            requires
                                after * p == before,
                        ;
                        lemma_fundamental_div_mod_converse(
                            before as int,
                            after as int,
                            p as int,
                            0,
                        );
                    }
                    lemma_divides_transitive(q, after, before);
                    assert(q <= p);
                    if after % p == 0 {
                        assert(p <= q);
                    }
                } else {
                    lemma_small_mod(1, p);
                    assert(new_prime == 1);
                }
            }
            if new_prime != prime {
                proof {
                    assert(after % p != 0);
                    assert(multiplicity(after, p) == 0);
                    assert(without(after, p) == after);
                }
                break ;
            }
            prime = new_prime;
        }
        Some((cnt, prime))
    }

    /// The prime factorisation of what is left.
    pub fn collect(self) -> (items: Vec<(usize, u64)>)
        requires
            self.wf(),
        ensures
            items.len() == factorisation(self.current() as nat).len(),
            forall|i: int|
                0 <= i < items.len() ==> (#[trigger] items[i]).0 == factorisation(
                    self.current() as nat,
                )[i].0 && items[i].1 == factorisation(self.current() as nat)[i].1,
    {
        let mut walk = self;
        let mut items: Vec<(usize, u64)> = Vec::new();
        let ghost all = factorisation(self.current() as nat);
        loop
            invariant
                walk.wf(),
                all == factorisation(self.current() as nat),
                items.len() + factorisation(walk.current() as nat).len() == all.len(),
                forall|i: int|
                    0 <= i < items.len() ==> (#[trigger] items[i]).0 == all[i].0 && items[i].1
                        == all[i].1,
                forall|i: int|
                    0 <= i < factorisation(walk.current() as nat).len() ==> all[items.len() + i]
                        == #[trigger] factorisation(walk.current() as nat)[i],
            ensures
                items.len() == all.len(),
                forall|i: int|
                    0 <= i < items.len() ==> (#[trigger] items[i]).0 == all[i].0 && items[i].1
                        == all[i].1,
            decreases walk.current(),
        {
            let ghost left = walk.current() as nat;
            proof {
                if left >= 2 {
                    lemma_largest_prime_factor(left);
                    lemma_without(left, largest_prime_factor(left));
                    lemma_multiplicity_bound(left, largest_prime_factor(left));
                }
            }
            match walk.next() {
                Some(item) => {
                    items.push(item);
                    proof {
                        let rest = factorisation(walk.current() as nat);
                        assert(factorisation(left) =~= seq![
                            (multiplicity(left, largest_prime_factor(left)), largest_prime_factor(left)),
                        ] + rest);
                        assert forall|i: int| 0 <= i < rest.len() implies all[items.len() + i]
                            == #[trigger] rest[i] by {
                            assert(factorisation(left)[i + 1] == rest[i]);
                        }
                        assert(factorisation(left)[0] == all[items.len() - 1]);
                    }
                },
                None => {
                    break ;
                },
            }
        }
        items
    }
}

/// A factor of 2 or more divides a number fewer times than the number says.
proof fn lemma_multiplicity_bound(n: nat, p: nat)
    requires
        n >= 1,
        p >= 2,
    ensures
        multiplicity(n, p) < n,
    decreases n,
{
    if n % p == 0 {
        lemma_quotient_smaller(n, p);
        lemma_multiplicity_bound(n / p, p);
    }
}

} // verus!
