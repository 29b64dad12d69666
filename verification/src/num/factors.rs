//! The divisors of all numbers up to a limit, by a sieve.

use vstd::prelude::*;

verus! {

/// `list` holds, in ascending order, exactly the divisors of `val` that are
/// smaller than `bound`.
pub open spec fn lists_factors_below(val: u64, list: Seq<u64>, bound: int) -> bool {
    &&& forall|i: int, j: int| 0 <= i < j < list.len() ==> list[i] < list[j]
    &&& forall|i: int|
        0 <= i < list.len() ==> 1 <= #[trigger] list[i] < bound && val % list[i] == 0
    &&& forall|d: u64| 1 <= d < bound && val % d == 0 ==> #[trigger] list.contains(d)
}

/// `list` holds, in ascending order, exactly the divisors of `val`; nothing
/// where `val` is zero.
pub open spec fn lists_factors(val: u64, list: Seq<u64>) -> bool {
    if val == 0 {
        list.len() == 0
    } else {
        lists_factors_below(val, list, val + 1)
    }
}

/// Between two multiples of `factor` that follow each other lies no third.
proof fn lemma_between_multiples(multiple: int, val: int, factor: int)
    requires
        factor > 0,
        multiple % factor == 0,
        multiple < val < multiple + factor,
    ensures
        val % factor != 0,
{
    vstd::arithmetic::div_mod::lemma_fundamental_div_mod(multiple, factor);
    assert(factor * (multiple / factor) == (multiple / factor) * factor) by (nonlinear_arith);
    vstd::arithmetic::div_mod::lemma_fundamental_div_mod_converse(
        val,
        factor,
        multiple / factor,
        val - multiple,
    );
}

/// A multiple of `factor` is followed by one, `factor` further on.
proof fn lemma_next_multiple(multiple: int, factor: int)
    requires
        factor > 0,
        multiple % factor == 0,
    ensures
        (multiple + factor) % factor == 0,
{
    vstd::arithmetic::div_mod::lemma_mod_adds(multiple, factor, factor);
    vstd::arithmetic::div_mod::lemma_mod_self_0(factor);
}

/// All factors of all numbers up to a limit.
pub struct Factors {
    num_to_factors: Vec<Vec<u64>>,
}

impl Factors {
    /// The lists of factors, by the number they belong to.
    pub closed spec fn table(&self) -> Seq<Seq<u64>> {
        Seq::new(self.num_to_factors.len() as nat, |val: int| self.num_to_factors[val]@)
    }

    /// The largest number that the table covers.
    pub open spec fn limit(&self) -> int {
        self.table().len() - 1
    }

    /// Every number up to the limit has the list of its factors.
    pub open spec fn wf(&self) -> bool {
        &&& 0 <= self.limit() <= 1_000_000
        &&& forall|val: u64| val <= self.limit() ==> lists_factors(val, #[trigger] self.table()[val as int])
    }

    /// The factors of all numbers up to `max_val`, which is no more than a
    /// million.
    pub fn new(max_val: u64) -> (factors: Self)
        requires
            max_val <= 1_000_000,
        ensures
            factors.wf(),
            factors.limit() == max_val,
    {
        let mut num_to_factors: Vec<Vec<u64>> = Vec::new();
        let mut filled: u64 = 0;
        while filled <= max_val
            invariant
                filled <= max_val + 1,
                max_val <= 1_000_000,
                num_to_factors.len() == filled,
                forall|k: int| 0 <= k < filled ==> (#[trigger] num_to_factors[k]).len() == 0,
            decreases max_val + 1 - filled,
        {
            num_to_factors.push(Vec::new());
            filled += 1;
        }
        let mut factor: u64 = 1;
        while factor <= max_val
            invariant
                1 <= factor <= max_val + 1,
                max_val <= 1_000_000,
                num_to_factors.len() == max_val + 1,
                num_to_factors[0].len() == 0,
                forall|val: u64|
                    1 <= val <= max_val ==> lists_factors_below(
                        val,
                        (#[trigger] num_to_factors[val as int])@,
                        factor as int,
                    ),
            decreases max_val + 1 - factor,
        {
            let mut val = factor;
            proof {
                vstd::arithmetic::div_mod::lemma_mod_self_0(factor as int);
                assert forall|other: u64| 1 <= other < val implies lists_factors_below(
                    other,
                    (#[trigger] num_to_factors[other as int])@,
                    factor + 1,
                ) by {
                    vstd::arithmetic::div_mod::lemma_small_mod(other as nat, factor as nat);
                    assert(other % factor != 0);
                }
            }
            while val <= max_val
                invariant
                    1 <= factor <= max_val,
                    factor <= val <= max_val + factor,
                    val % factor == 0,
                    max_val <= 1_000_000,
                    num_to_factors.len() == max_val + 1,
                    num_to_factors[0].len() == 0,
                    forall|other: u64|
                        1 <= other <= max_val && other < val ==> lists_factors_below(
                            other,
                            (#[trigger] num_to_factors[other as int])@,
                            factor + 1,
                        ),
                    forall|other: u64|
                        val <= other <= max_val ==> lists_factors_below(
                            other,
                            (#[trigger] num_to_factors[other as int])@,
                            factor as int,
                        ),
                decreases max_val + factor - val,
            {
                let ghost before = num_to_factors@;
                let ghost list = num_to_factors[val as int]@;
                num_to_factors[val as usize].push(factor);
                proof {
                    let longer = num_to_factors[val as int]@;
                    assert(longer == list.push(factor));
                    assert forall|d: u64| 1 <= d < factor + 1 && val % d == 0 implies #[trigger] longer.contains(
                        d,
                    ) by {
                        if d < factor {
                            assert(list.contains(d));
                            let i = choose|i: int| 0 <= i < list.len() && list[i] == d;
                            assert(longer[i] == d);
                        } else {
                            assert(longer[list.len() as int] == d);
                        }
                    }
                    assert(lists_factors_below(val, longer, factor + 1));
                    lemma_next_multiple(val as int, factor as int);
                    assert forall|other: u64|
                        1 <= other <= max_val && other < val + factor implies lists_factors_below(
                        other,
                        (#[trigger] num_to_factors[other as int])@,
                        factor + 1,
                    ) by {
                        if other > val {
                            lemma_between_multiples(val as int, other as int, factor as int);
                            assert(num_to_factors[other as int] == before[other as int]);
                        } else if other < val {
                            assert(num_to_factors[other as int] == before[other as int]);
                        }
                    }
                    assert forall|other: u64|
                        val + factor <= other <= max_val implies lists_factors_below(
                        other,
                        (#[trigger] num_to_factors[other as int])@,
                        factor as int,
                    ) by {
                        assert(num_to_factors[other as int] == before[other as int]);
                    }
                }
                val += factor;
            }
            factor += 1;
        }
        let factors = Factors { num_to_factors };
        proof {
            assert forall|val: u64| val <= factors.limit() implies lists_factors(
                val,
                #[trigger] factors.table()[val as int],
            ) by {
                if val > 0 {
                    let list = factors.table()[val as int];
                    assert(list == factors.num_to_factors[val as int]@);
                    assert forall|i: int| 0 <= i < list.len() implies 1 <= #[trigger] list[i] < val
                        + 1 && val % list[i] == 0 by {
                        if list[i] > val {
                            vstd::arithmetic::div_mod::lemma_small_mod(val as nat, list[i] as nat);
                        }
                    }
                }
            }
        }
        factors
    }

    /// All factors of `val` in ascending order.
    pub fn factors(&self, val: u64) -> (list: &[u64])
        requires
            self.wf(),
            val <= self.limit(),
        ensures
            list@ == self.table()[val as int],
            lists_factors(val, list@),
    {
        proof {
            assert(lists_factors(val, self.table()[val as int]));
        }
        self.num_to_factors[val as usize].as_slice()
    }
}

} // verus!
