//! Permutations of `0..n`: ranks, inverses and parity.

use std::collections::HashMap;
use vstd::prelude::*;
use vstd::seq_lib::lemma_multiset_commutative;

verus! {

/// The number of elements of `s`, repetitions counted, that are at most `x`.
pub open spec fn count_at_most(s: Seq<usize>, x: usize) -> nat {
    s.to_multiset().filter(|y: usize| y <= x).len()
}

/// `s` is in ascending order.
pub open spec fn ascending(s: Seq<usize>) -> bool {
    forall|i: int, j: int| 0 <= i <= j < s.len() ==> s[i] <= s[j]
}

/// `<[usize]>::sort_unstable` of std, on the elements of a vector: afterwards
/// the vector holds the elements it held, in ascending order.
#[verifier::external_body]
fn sort_unstable(v: &mut Vec<usize>)
    ensures
        final(v)@.to_multiset() == old(v)@.to_multiset(),
        ascending(final(v)@),
{
    v.sort_unstable();
}

/// In an ascending sequence, the elements up to the last occurrence of a
/// value are those that are at most that value.
proof fn lemma_count_in_ascending(s: Seq<usize>, last: int)
    requires
        ascending(s),
        0 <= last < s.len(),
        forall|j: int| last < j < s.len() ==> s[j] != s[last],
    ensures
        count_at_most(s, s[last]) == last + 1,
{
    broadcast use vstd::multiset::group_multiset_axioms;

    let x = s[last];
    let head = s.take(last + 1);
    let rest = s.skip(last + 1);
    let at_most = |y: usize| y <= x;
    assert(s =~= head + rest);
    lemma_multiset_commutative(head, rest);
    head.to_multiset_ensures();
    rest.to_multiset_ensures();
    assert forall|y: usize| #[trigger]
        s.to_multiset().filter(at_most).count(y) == head.to_multiset().count(y) by {
        if y <= x {
            if rest.to_multiset().count(y) > 0 {
                assert(rest.contains(y));
                let j = choose|j: int| 0 <= j < rest.len() && rest[j] == y;
                assert(s[last + 1 + j] == y);
                assert(s[last] <= s[last + 1 + j]);
            }
        } else {
            if head.to_multiset().count(y) > 0 {
                assert(head.contains(y));
                let j = choose|j: int| 0 <= j < head.len() && head[j] == y;
                assert(s[j] <= s[last]);
            }
        }
    }
    assert(s.to_multiset().filter(at_most) =~= head.to_multiset());
}

/// The rank of each element of `v` among the elements of `v`: the number of
/// elements that are at most as large, less one. Where the elements of `v`
/// are distinct, this is the permutation that orders `v`.
pub fn reduced_perm(v: &[usize]) -> (ranks: Vec<usize>)
    ensures
        ranks.len() == v.len(),
        forall|i: int| 0 <= i < v.len() ==> #[trigger] ranks[i] + 1 == count_at_most(v@, v[i]),
{
    broadcast use vstd::std_specs::hash::group_hash_axioms;

    let mut v_sorted = vstd::slice::slice_to_vec(v);
    sort_unstable(&mut v_sorted);
    proof {
        v@.to_multiset_ensures();
        v_sorted@.to_multiset_ensures();
    }
    let mut inv_map = HashMap::<usize, usize>::with_capacity(v.len());
    let mut i: usize = 0;
    while i < v_sorted.len()
        invariant
            i <= v_sorted.len(),
            forall|x: usize| #[trigger]
                inv_map@.contains_key(x) <==> exists|j: int| 0 <= j < i && v_sorted[j] == x,
            forall|x: usize| #[trigger]
                inv_map@.contains_key(x) ==> inv_map@[x] < i && v_sorted[inv_map@[x] as int] == x
                    && forall|j: int| inv_map@[x] < j < i ==> v_sorted[j] != x,
        decreases v_sorted.len() - i,
    {
        let elem = v_sorted[i];
        let ghost before = inv_map@;
        inv_map.insert(elem, i);
        proof {
            assert forall|x: usize| #[trigger] inv_map@.contains_key(x) implies exists|j: int|
                0 <= j < i + 1 && v_sorted[j] == x by {
                if x == elem {
                    assert(v_sorted[i as int] == x);
                } else {
                    assert(before.contains_key(x));
                    let j = choose|j: int| 0 <= j < i && v_sorted[j] == x;
                    assert(0 <= j < i + 1 && v_sorted[j] == x);
                }
            }
            assert forall|x: usize| (exists|j: int| 0 <= j < i + 1 && v_sorted[j] == x)
                implies #[trigger] inv_map@.contains_key(x) by {
                let j = choose|j: int| 0 <= j < i + 1 && v_sorted[j] == x;
                if j < i {
                    assert(before.contains_key(x));
                }
            }
        }
        i += 1;
    }
    let mut ranks: Vec<usize> = Vec::with_capacity(v.len());
    let mut k: usize = 0;
    while k < v.len()
        invariant
            k <= v.len(),
            ranks.len() == k,
            v_sorted.len() == v.len(),
            v_sorted@.to_multiset() == v@.to_multiset(),
            ascending(v_sorted@),
            forall|x: usize| #[trigger]
                inv_map@.contains_key(x) <==> exists|j: int|
                    0 <= j < v_sorted.len() && v_sorted[j] == x,
            forall|x: usize| #[trigger]
                inv_map@.contains_key(x) ==> inv_map@[x] < v_sorted.len() && v_sorted[inv_map@[x] as int]
                    == x && forall|j: int| inv_map@[x] < j < v_sorted.len() ==> v_sorted[j] != x,
            forall|i: int| 0 <= i < k ==> #[trigger] ranks[i] + 1 == count_at_most(v@, v[i]),
        decreases v.len() - k,
    {
        let elem = v[k];
        proof {
            v@.to_multiset_ensures();
            v_sorted@.to_multiset_ensures();
            assert(v@.contains(elem));
            assert(v@.to_multiset().count(elem) > 0);
            assert(v_sorted@.to_multiset().count(elem) > 0);
            assert(v_sorted@.contains(elem));
            let j = choose|j: int| 0 <= j < v_sorted.len() && v_sorted[j] == elem;
            assert(inv_map@.contains_key(elem));
            lemma_count_in_ascending(v_sorted@, inv_map@[elem] as int);
        }
        let rank = *inv_map.get(&elem).unwrap();
        ranks.push(rank);
        k += 1;
    }
    ranks
}

/// For each `x` below the length of `v`, the last index at which `v` holds
/// `x`, or 0 where it holds `x` nowhere. Where `v` is a permutation of
/// `0..n`, this is its inverse.
pub fn inv_perm(v: &[usize]) -> (inv: Vec<usize>)
    requires
        forall|i: int| 0 <= i < v.len() ==> v[i] < v.len(),
    ensures
        inv.len() == v.len(),
        forall|x: int|
            0 <= x < v.len() ==> (if exists|i: int| 0 <= i < v.len() && v[i] == x {
                &&& (#[trigger] inv[x]) < v.len()
                &&& v[inv[x] as int] == x
                &&& forall|j: int| inv[x] < j < v.len() ==> v[j] != x
            } else {
                inv[x] == 0
            }),
{
    let mut inv = vec![0usize; v.len()];
    let mut i: usize = 0;
    while i < v.len()
        invariant
            i <= v.len(),
            inv.len() == v.len(),
            forall|k: int| 0 <= k < v.len() ==> v[k] < v.len(),
            forall|x: int|
                0 <= x < v.len() ==> (if exists|k: int| 0 <= k < i && v[k] == x {
                    &&& (#[trigger] inv[x]) < i
                    &&& v[inv[x] as int] == x
                    &&& forall|j: int| inv[x] < j < i ==> v[j] != x
                } else {
                    inv[x] == 0
                }),
        decreases v.len() - i,
    {
        let ghost before = inv@;
        inv.set(v[i], i);
        proof {
            assert forall|x: int| 0 <= x < v.len() implies (if exists|k: int|
                0 <= k < i + 1 && v[k] == x {
                &&& (#[trigger] inv[x]) < i + 1
                &&& v[inv[x] as int] == x
                &&& forall|j: int| inv[x] < j < i + 1 ==> v[j] != x
            } else {
                inv[x] == 0
            }) by {
                if x == v[i as int] {
                    assert(0 <= i < i + 1 && v[i as int] == x);
                } else if exists|k: int| 0 <= k < i && v[k] == x {
                    let k = choose|k: int| 0 <= k < i && v[k] == x;
                    assert(0 <= k < i + 1 && v[k] == x);
                    assert(before[x] == inv[x]);
                } else {
                    assert(before[x] == inv[x]);
                    assert forall|k: int| 0 <= k < i + 1 implies v[k] != x by {
                        if k < i {
                            assert(!(0 <= k < i && v[k] == x));
                        }
                    }
                }
            }
        }
        i += 1;
    }
    inv
}

/// `s` holds each of the numbers below its length once.
pub open spec fn is_permutation(s: Seq<usize>) -> bool {
    &&& forall|k: int| 0 <= k < s.len() ==> #[trigger] s[k] < s.len()
    &&& forall|k: int, l: int| 0 <= k < l < s.len() ==> s[k] != s[l]
    &&& forall|x: usize| x < s.len() ==> #[trigger] s.contains(x)
}

/// The number of elements of `s` that are greater than `x`.
pub open spec fn count_greater(s: Seq<usize>, x: usize) -> nat
    decreases s.len(),
{
    if s.len() == 0 {
        0
    } else {
        count_greater(s.drop_last(), x) + (if s.last() > x {
            1nat
        } else {
            0nat
        })
    }
}

/// The number of inversions of `s`: of pairs of places at which the
/// elements of `s` stand in descending order.
pub open spec fn inversions(s: Seq<usize>) -> nat
    decreases s.len(),
{
    if s.len() == 0 {
        0
    } else {
        inversions(s.drop_last()) + count_greater(s.drop_last(), s.last())
    }
}

/// `s` with the elements at `i` and `j` exchanged.
pub open spec fn exchanged(s: Seq<usize>, i: int, j: int) -> Seq<usize> {
    s.update(i, s[j]).update(j, s[i])
}

/// Exchanging two neighbours changes no count of greater elements.
proof fn lemma_count_exchanged(s: Seq<usize>, t: int, x: usize)
    requires
        0 <= t,
        t + 1 < s.len(),
    ensures
        count_greater(exchanged(s, t, t + 1), x) == count_greater(s, x),
    decreases s.len(),
{
    let e = exchanged(s, t, t + 1);
    if t + 2 == s.len() {
        let head = s.drop_last().drop_last();
        assert(e.drop_last().drop_last() =~= head);
        assert(e.drop_last().last() == s.last());
        assert(s.drop_last().last() == e.last());
        lemma_count_two(s, x);
        lemma_count_two(e, x);
    } else {
        assert(e.drop_last() =~= exchanged(s.drop_last(), t, t + 1));
        lemma_count_exchanged(s.drop_last(), t, x);
    }
}

/// The count of greater elements, with the last two elements set apart.
proof fn lemma_count_two(s: Seq<usize>, x: usize)
    requires
        s.len() >= 2,
    ensures
        count_greater(s, x) == count_greater(s.drop_last().drop_last(), x) + (if s[s.len() - 2]
            > x {
            1nat
        } else {
            0nat
        }) + (if s[s.len() - 1] > x {
            1nat
        } else {
            0nat
        }),
{
    assert(count_greater(s, x) == count_greater(s.drop_last(), x) + (if s.last() > x {
        1nat
    } else {
        0nat
    }));
    assert(count_greater(s.drop_last(), x) == count_greater(s.drop_last().drop_last(), x) + (
    if s.drop_last().last() > x {
        1nat
    } else {
        0nat
    }));
}

/// Exchanging two neighbours that differ changes the number of inversions
/// by one.
proof fn lemma_neighbours_exchanged(s: Seq<usize>, t: int)
    requires
        0 <= t,
        t + 1 < s.len(),
        s[t] != s[t + 1],
    ensures
        inversions(exchanged(s, t, t + 1)) % 2 != inversions(s) % 2,
    decreases s.len(),
{
    let e = exchanged(s, t, t + 1);
    if t + 2 == s.len() {
        let head = s.drop_last().drop_last();
        assert(e.drop_last().drop_last() =~= head);
        assert(e.drop_last().last() == s.last());
        assert(s.drop_last().last() == e.last());
        let y = s[t];
        let z = s[t + 1];
        lemma_inversions_two(s);
        lemma_inversions_two(e);
        assert(s[s.len() - 2] == y && s[s.len() - 1] == z);
        assert(e[e.len() - 2] == z && e[e.len() - 1] == y);
    } else {
        assert(e.drop_last() =~= exchanged(s.drop_last(), t, t + 1));
        lemma_neighbours_exchanged(s.drop_last(), t);
        lemma_count_exchanged(s.drop_last(), t, s.last());
    }
}

/// The number of inversions, with the last two elements set apart.
proof fn lemma_inversions_two(s: Seq<usize>)
    requires
        s.len() >= 2,
    ensures
        inversions(s) == inversions(s.drop_last().drop_last()) + count_greater(
            s.drop_last().drop_last(),
            s[s.len() - 2],
        ) + count_greater(s.drop_last().drop_last(), s[s.len() - 1]) + (if s[s.len() - 2]
            > s[s.len() - 1] {
            1nat
        } else {
            0nat
        }),
{
    let front = s.drop_last();
    assert(inversions(s) == inversions(front) + count_greater(front, s.last()));
    assert(inversions(front) == inversions(front.drop_last()) + count_greater(
        front.drop_last(),
        front.last(),
    ));
    assert(count_greater(front, s.last()) == count_greater(front.drop_last(), s.last()) + (
    if front.last() > s.last() {
        1nat
    } else {
        0nat
    }));
}

/// Exchanging any two elements of a sequence without repetitions makes an
/// odd number of inversions even, and an even number odd.
pub proof fn lemma_exchanged(s: Seq<usize>, i: int, j: int)
    requires
        0 <= i < j < s.len(),
        forall|k: int, l: int| 0 <= k < l < s.len() ==> s[k] != s[l],
    ensures
        inversions(exchanged(s, i, j)) % 2 != inversions(s) % 2,
    decreases j - i,
{
    if j == i + 1 {
        lemma_neighbours_exchanged(s, i);
    } else {
        // Bring the element at j one place down, exchange it with the one
        // at i, and bring that one place up.
        let first = exchanged(s, j - 1, j);
        let second = exchanged(first, i, j - 1);
        let third = exchanged(second, j - 1, j);
        lemma_neighbours_exchanged(s, j - 1);
        assert forall|k: int, l: int| 0 <= k < l < first.len() implies first[k] != first[l] by {
            let from = |p: int|
                if p == j {
                    j - 1
                } else if p == j - 1 {
                    j
                } else {
                    p
                };
            assert(first[k] == s[from(k)] && first[l] == s[from(l)]);
            if from(k) < from(l) {
                assert(s[from(k)] != s[from(l)]);
            } else {
                assert(s[from(l)] != s[from(k)]);
            }
        }
        lemma_exchanged(first, i, j - 1);
        assert(second[j - 1] == s[i] && second[j] == s[j - 1]);
        assert(s[i] != s[j - 1]);
        lemma_neighbours_exchanged(second, j - 1);
        assert(third =~= exchanged(s, i, j));
    }
}

/// A sequence in which every element is its own index has no inversions.
proof fn lemma_identity_sorted(s: Seq<usize>)
    requires
        forall|k: int| 0 <= k < s.len() ==> s[k] == k,
    ensures
        inversions(s) == 0,
    decreases s.len(),
{
    if s.len() > 0 {
        lemma_identity_sorted(s.drop_last());
        lemma_none_greater(s.drop_last(), s.last());
    }
}

/// Of the indices below `x`, none is greater than `x`.
proof fn lemma_none_greater(s: Seq<usize>, x: usize)
    requires
        forall|k: int| 0 <= k < s.len() ==> s[k] == k,
        s.len() <= x,
    ensures
        count_greater(s, x) == 0,
    decreases s.len(),
{
    if s.len() > 0 {
        lemma_none_greater(s.drop_last(), x);
    }
}

/// Sorts the permutation `v` of `0..n`, and tells whether the number of its
/// inversions was odd.
pub fn inversions_odd(v: &mut [usize]) -> (odd: bool)
    requires
        is_permutation(old(v)@),
    ensures
        final(v).len() == old(v).len(),
        forall|k: int| 0 <= k < final(v).len() ==> final(v)[k] == k,
        odd == (inversions(old(v)@) % 2 == 1),
{
    let n = v.len();
    let mut inv = inv_perm(v);
    let mut ans: usize = 0;
    let mut i: usize = 0;
    proof {
        assert forall|k: int| 0 <= k < n implies inv[v[k] as int] == k by {
            let x = v[k] as int;
            assert(0 <= k < v.len() && v[k] == x);
            let found = inv[x] as int;
            if found < k {
                assert(v[found] != v[k]);
            } else if k < found {
                assert(v[k] != v[found]);
            }
        }
        assert forall|x: int| 0 <= x < n implies inv[x] < n && v[inv[x] as int] == x by {
            assert(v@.contains(x as usize));
            let k = choose|k: int| 0 <= k < v.len() && v[k] == x as usize;
            assert(0 <= k < v.len() && v[k] == x);
        }
    }
    while i < n
        invariant
            n == v.len(),
            n == old(v).len(),
            inv.len() == n,
            i <= n,
            ans <= i,
            is_permutation(v@),
            forall|k: int| 0 <= k < n ==> inv[#[trigger] v[k] as int] == k,
            forall|x: int| 0 <= x < n ==> #[trigger] inv[x] < n && v[inv[x] as int] == x,
            forall|k: int| 0 <= k < i ==> v[k] == k,
            (inversions(v@) + ans) % 2 == inversions(old(v)@) % 2,
        decreases n - i,
    {
        let pos = inv[i];
        if pos != i {
            let vi = v[i];
            let vpos = v[pos];
            let ghost before = v@;
            let ghost inv_before = inv@;
            proof {
                assert(vpos == i);
                if pos < i {
                    assert(v[pos as int] == pos);
                }
                assert(i < pos);
                lemma_exchanged(before, i as int, pos as int);
            }
            v[i] = vpos;
            v[pos] = vi;
            inv.set(vi, pos);
            inv.set(vpos, i);
            ans += 1;
            proof {
                assert(v@ =~= exchanged(before, i as int, pos as int));
                let from = |p: int|
                    if p == i {
                        pos as int
                    } else if p == pos {
                        i as int
                    } else {
                        p
                    };
                assert forall|k: int| 0 <= k < n implies v[k] == before[from(k)] by {}
                assert forall|k: int, l: int| 0 <= k < l < n implies v[k] != v[l] by {
                    if from(k) < from(l) {
                        assert(before[from(k)] != before[from(l)]);
                    } else {
                        assert(before[from(l)] != before[from(k)]);
                    }
                }
                assert forall|x: usize| x < n implies #[trigger] v@.contains(x) by {
                    assert(before.contains(x));
                    let k = choose|k: int| 0 <= k < n && before[k] == x;
                    assert(0 <= from(k) < n && v[from(k)] == x);
                }
                assert forall|k: int| 0 <= k < n implies inv[#[trigger] v[k] as int] == k by {
                    assert(inv_before[before[from(k)] as int] == from(k));
                }
                assert forall|x: int| 0 <= x < n implies #[trigger] inv[x] < n && v[inv[x] as int]
                    == x by {
                    assert(inv_before[x] < n && before[inv_before[x] as int] == x);
                }
            }
        } else {
            assert(v[i as int] == i);
        }
        i += 1;
    }
    proof {
        lemma_identity_sorted(v@);
    }
    ans % 2 == 1
}

} // verus!
