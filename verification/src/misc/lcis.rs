//! The longest common increasing subsequence of two sequences.

use vstd::prelude::*;

verus! {

/// The elements of `a` at the indices `ia` and the elements of `b` at the
/// indices `ib` are one and the same strictly increasing sequence, and both
/// index lists ascend.
pub open spec fn common_increasing(a: Seq<i32>, b: Seq<i32>, ia: Seq<int>, ib: Seq<int>) -> bool {
    &&& ia.len() == ib.len()
    &&& forall|t: int|
        0 <= t < ia.len() ==> 0 <= #[trigger] ia[t] < a.len() && 0 <= ib[t] < b.len() && a[ia[t]]
            == b[ib[t]]
    &&& forall|s: int, t: int|
        0 <= s < t < ia.len() ==> #[trigger] ia[s] < #[trigger] ia[t] && ib[s] < ib[t] && a[ia[s]]
            < a[ia[t]]
}

/// `len` is the length of a longest common increasing subsequence of `a`
/// and `b`.
pub open spec fn is_longest(a: Seq<i32>, b: Seq<i32>, len: nat) -> bool {
    &&& exists|ia: Seq<int>, ib: Seq<int>| #[trigger]
        common_increasing(a, b, ia, ib) && ia.len() == len
    &&& forall|ia: Seq<int>, ib: Seq<int>| #[trigger]
        common_increasing(a, b, ia, ib) ==> ia.len() <= len
}

/// A common increasing subsequence that is not empty, takes its elements
/// from the first `rows` elements of `a`, and ends with the element of `b`
/// at `col`.
spec fn ends_at(a: Seq<i32>, b: Seq<i32>, rows: int, col: int, ia: Seq<int>, ib: Seq<int>) -> bool {
    &&& common_increasing(a, b, ia, ib)
    &&& ia.len() > 0
    &&& ia.last() < rows
    &&& ib.last() == col
}

/// A common increasing subsequence that is not empty, takes its elements
/// from the first `rows` elements of `a` and the first `cols` of `b`, and
/// ends with an element less than `x`.
spec fn ends_low(
    a: Seq<i32>,
    b: Seq<i32>,
    rows: int,
    cols: int,
    x: i32,
    ia: Seq<int>,
    ib: Seq<int>,
) -> bool {
    &&& common_increasing(a, b, ia, ib)
    &&& ia.len() > 0
    &&& ia.last() < rows
    &&& ib.last() < cols
    &&& b[ib.last()] < x
}

/// `len` is the greatest length of the subsequences that `ends_at` admits;
/// zero if it admits none.
spec fn best_at(a: Seq<i32>, b: Seq<i32>, rows: int, col: int, len: nat) -> bool {
    &&& len > 0 ==> exists|ia: Seq<int>, ib: Seq<int>| #[trigger]
        ends_at(a, b, rows, col, ia, ib) && ia.len() == len
    &&& forall|ia: Seq<int>, ib: Seq<int>| #[trigger]
        ends_at(a, b, rows, col, ia, ib) ==> ia.len() <= len
}

/// `len` is the greatest length of the subsequences that `ends_low` admits;
/// zero if it admits none.
spec fn best_low(a: Seq<i32>, b: Seq<i32>, rows: int, cols: int, x: i32, len: nat) -> bool {
    &&& len > 0 ==> exists|ia: Seq<int>, ib: Seq<int>| #[trigger]
        ends_low(a, b, rows, cols, x, ia, ib) && ia.len() == len
    &&& forall|ia: Seq<int>, ib: Seq<int>| #[trigger]
        ends_low(a, b, rows, cols, x, ia, ib) ==> ia.len() <= len
}

/// Ascending indices are at least their own place in the list.
proof fn lemma_ascending(a: Seq<i32>, b: Seq<i32>, ia: Seq<int>, ib: Seq<int>, t: int)
    requires
        common_increasing(a, b, ia, ib),
        0 <= t < ia.len(),
    ensures
        ia[t] >= t,
        ib[t] >= t,
    decreases t,
{
    if t > 0 {
        lemma_ascending(a, b, ia, ib, t - 1);
    }
}

/// A subsequence that ends at a column whose element is not `a[rows]` does
/// not use `a[rows]`.
proof fn lemma_other_column(a: Seq<i32>, b: Seq<i32>, rows: int, col: int, len: nat)
    requires
        0 <= rows < a.len(),
        0 <= col < b.len(),
        b[col] != a[rows],
        best_at(a, b, rows, col, len),
    ensures
        best_at(a, b, rows + 1, col, len),
{
    if len > 0 {
        let (ia, ib) = choose|ia: Seq<int>, ib: Seq<int>| #[trigger]
            ends_at(a, b, rows, col, ia, ib) && ia.len() == len;
        assert(ends_at(a, b, rows + 1, col, ia, ib));
    }
    assert forall|ia: Seq<int>, ib: Seq<int>| #[trigger]
        ends_at(a, b, rows + 1, col, ia, ib) implies ia.len() <= len by {
        assert(a[ia.last()] == b[ib.last()]);
        assert(ends_at(a, b, rows, col, ia, ib));
    }
}

/// One more column, whose element is not less than `x`, admits no more.
proof fn lemma_skip_column(a: Seq<i32>, b: Seq<i32>, rows: int, cols: int, x: i32, len: nat)
    requires
        0 <= cols < b.len(),
        b[cols] >= x,
        best_low(a, b, rows, cols, x, len),
    ensures
        best_low(a, b, rows, cols + 1, x, len),
{
    if len > 0 {
        let (ia, ib) = choose|ia: Seq<int>, ib: Seq<int>| #[trigger]
            ends_low(a, b, rows, cols, x, ia, ib) && ia.len() == len;
        assert(ends_low(a, b, rows, cols + 1, x, ia, ib));
    }
    assert forall|ia: Seq<int>, ib: Seq<int>| #[trigger]
        ends_low(a, b, rows, cols + 1, x, ia, ib) implies ia.len() <= len by {
        assert(ends_low(a, b, rows, cols, x, ia, ib));
    }
}

/// One more column, whose element is less than `x`, admits what ends there
/// as well.
proof fn lemma_take_column(
    a: Seq<i32>,
    b: Seq<i32>,
    rows: int,
    cols: int,
    x: i32,
    low: nat,
    here: nat,
)
    requires
        0 <= cols < b.len(),
        b[cols] < x,
        best_low(a, b, rows, cols, x, low),
        best_at(a, b, rows, cols, here),
    ensures
        best_low(a, b, rows, cols + 1, x, if low >= here {
            low
        } else {
            here
        }),
{
    let len = if low >= here {
        low
    } else {
        here
    };
    if len > 0 {
        if low >= here {
            let (ia, ib) = choose|ia: Seq<int>, ib: Seq<int>| #[trigger]
                ends_low(a, b, rows, cols, x, ia, ib) && ia.len() == low;
            assert(ends_low(a, b, rows, cols + 1, x, ia, ib));
        } else {
            let (ia, ib) = choose|ia: Seq<int>, ib: Seq<int>| #[trigger]
                ends_at(a, b, rows, cols, ia, ib) && ia.len() == here;
            assert(ends_low(a, b, rows, cols + 1, x, ia, ib));
        }
    }
    assert forall|ia: Seq<int>, ib: Seq<int>| #[trigger]
        ends_low(a, b, rows, cols + 1, x, ia, ib) implies ia.len() <= len by {
        if ib.last() == cols {
            assert(ends_at(a, b, rows, cols, ia, ib));
        } else {
            assert(ends_low(a, b, rows, cols, x, ia, ib));
        }
    }
}

/// At a column whose element is `a[rows]`, the longest subsequence either
/// does without `a[rows]`, or appends it to the longest one that ends lower
/// and earlier.
proof fn lemma_match_column(a: Seq<i32>, b: Seq<i32>, rows: int, col: int, low: nat, here: nat)
    requires
        0 <= rows < a.len(),
        0 <= col < b.len(),
        b[col] == a[rows],
        best_low(a, b, rows, col, a[rows], low),
        best_at(a, b, rows, col, here),
    ensures
        best_at(a, b, rows + 1, col, if here >= low + 1 {
            here
        } else {
            low + 1
        }),
{
    let x = a[rows];
    let len = if here >= low + 1 {
        here
    } else {
        low + 1
    };
    if here >= low + 1 {
        let (ia, ib) = choose|ia: Seq<int>, ib: Seq<int>| #[trigger]
            ends_at(a, b, rows, col, ia, ib) && ia.len() == here;
        assert(ends_at(a, b, rows + 1, col, ia, ib));
    } else if low == 0 {
        let ia = seq![rows];
        let ib = seq![col];
        assert(ends_at(a, b, rows + 1, col, ia, ib));
    } else {
        let (ja, jb) = choose|ia: Seq<int>, ib: Seq<int>| #[trigger]
            ends_low(a, b, rows, col, x, ia, ib) && ia.len() == low;
        let ia = ja.push(rows);
        let ib = jb.push(col);
        assert(common_increasing(a, b, ia, ib)) by {
            assert forall|s: int, t: int| 0 <= s < t < ia.len() implies #[trigger] ia[s]
                < #[trigger] ia[t] && ib[s] < ib[t] && a[ia[s]] < a[ia[t]] by {
                if t == ja.len() {
                    if s < ja.len() - 1 {
                        assert(ja[s] < ja[ja.len() - 1]);
                    }
                    assert(a[ja.last()] == b[jb.last()]);
                } else {
                    assert(ja[s] < ja[t]);
                }
            }
        }
        assert(ends_at(a, b, rows + 1, col, ia, ib));
    }
    assert forall|ia: Seq<int>, ib: Seq<int>| #[trigger]
        ends_at(a, b, rows + 1, col, ia, ib) implies ia.len() <= len by {
        if ia.last() < rows {
            assert(ends_at(a, b, rows, col, ia, ib));
        } else if ia.len() >= 2 {
            let ja = ia.drop_last();
            let jb = ib.drop_last();
            assert(common_increasing(a, b, ja, jb)) by {
                assert forall|s: int, t: int| 0 <= s < t < ja.len() implies #[trigger] ja[s]
                    < #[trigger] ja[t] && jb[s] < jb[t] && a[ja[s]] < a[ja[t]] by {
                    assert(ia[s] < ia[t]);
                }
                assert forall|t: int| 0 <= t < ja.len() implies 0 <= #[trigger] ja[t] < a.len()
                    && 0 <= jb[t] < b.len() && a[ja[t]] == b[jb[t]] by {
                    assert(0 <= ia[t] < a.len());
                }
            }
            assert(ia[ia.len() - 2] < ia[ia.len() - 1]);
            assert(a[ja.last()] == b[jb.last()]);
            assert(ends_low(a, b, rows, col, x, ja, jb));
        }
    }
}

/// The length of the longest common increasing subsequence of `nums1` and
/// `nums2`.
pub fn lcis(nums1: &[i32], nums2: &[i32]) -> (len: usize)
    ensures
        is_longest(nums1@, nums2@, len as nat),
{
    let ghost a = nums1@;
    let ghost b = nums2@;
    let mut max_ans: usize = 0;
    let mut column_ans: Vec<usize> = vec![0usize; nums2.len()];
    let mut i: usize = 0;
    proof {
        assert forall|col: int| 0 <= col < b.len() implies best_at(
            a,
            b,
            0,
            col,
            #[trigger] column_ans[col] as nat,
        ) by {
            assert forall|ia: Seq<int>, ib: Seq<int>| #[trigger]
                ends_at(a, b, 0, col, ia, ib) implies ia.len() <= 0 by {
                assert(0 <= ia[ia.len() - 1]);
            }
        }
    }
    while i < nums1.len()
        invariant
            a == nums1@,
            b == nums2@,
            i <= nums1.len(),
            column_ans.len() == nums2.len(),
            max_ans <= i,
            forall|col: int|
                0 <= col < b.len() ==> best_at(a, b, i as int, col, #[trigger] column_ans[col] as nat),
            forall|col: int| 0 <= col < b.len() ==> #[trigger] column_ans[col] <= max_ans,
            max_ans > 0 ==> exists|ia: Seq<int>, ib: Seq<int>| #[trigger]
                common_increasing(a, b, ia, ib) && ia.len() == max_ans,
        decreases nums1.len() - i,
    {
        let row_val = nums1[i];
        let mut cur_ans: usize = 0;
        let mut j: usize = 0;
        proof {
            assert forall|ia: Seq<int>, ib: Seq<int>| #[trigger]
                ends_low(a, b, i as int, 0, row_val, ia, ib) implies ia.len() <= 0 by {
                assert(0 <= ib[ib.len() - 1]);
            }
        }
        while j < nums2.len()
            invariant
                a == nums1@,
                b == nums2@,
                i < nums1.len(),
                j <= nums2.len(),
                row_val == a[i as int],
                column_ans.len() == nums2.len(),
                cur_ans <= i,
                max_ans <= i + 1,
                best_low(a, b, i as int, j as int, row_val, cur_ans as nat),
                forall|col: int|
                    0 <= col < j ==> best_at(a, b, i + 1, col, #[trigger] column_ans[col] as nat),
                forall|col: int|
                    j <= col < b.len() ==> best_at(
                        a,
                        b,
                        i as int,
                        col,
                        #[trigger] column_ans[col] as nat,
                    ),
                forall|col: int| 0 <= col < b.len() ==> #[trigger] column_ans[col] <= max_ans,
                max_ans > 0 ==> exists|ia: Seq<int>, ib: Seq<int>| #[trigger]
                    common_increasing(a, b, ia, ib) && ia.len() == max_ans,
            decreases nums2.len() - j,
        {
            let ghost here = column_ans[j as int] as nat;
            let ghost low = cur_ans as nat;
            if nums2[j] < row_val {
                proof {
                    lemma_take_column(a, b, i as int, j as int, row_val, low, here);
                    lemma_other_column(a, b, i as int, j as int, here);
                }
                if column_ans[j] > cur_ans {
                    proof {
                        let (ia, ib) = choose|ia: Seq<int>, ib: Seq<int>| #[trigger]
                            ends_at(a, b, i as int, j as int, ia, ib) && ia.len() == here;
                        lemma_ascending(a, b, ia, ib, ia.len() - 1);
                    }
                    cur_ans = column_ans[j];
                }
            } else if nums2[j] == row_val {
                proof {
                    lemma_match_column(a, b, i as int, j as int, low, here);
                    lemma_skip_column(a, b, i as int, j as int, row_val, low);
                }
                let ans = cur_ans + 1;
                if ans > column_ans[j] {
                    column_ans.set(j, ans);
                }
                if ans > max_ans {
                    proof {
                        let (ia, ib) = choose|ia: Seq<int>, ib: Seq<int>| #[trigger]
                            ends_at(a, b, i + 1, j as int, ia, ib) && ia.len() == ans;
                        assert(common_increasing(a, b, ia, ib));
                    }
                    max_ans = ans;
                }
            } else {
                proof {
                    lemma_other_column(a, b, i as int, j as int, here);
                    lemma_skip_column(a, b, i as int, j as int, row_val, low);
                }
            }
            j += 1;
        }
        i += 1;
    }
    proof {
        if max_ans == 0 {
            assert(common_increasing(a, b, Seq::<int>::empty(), Seq::<int>::empty()));
        }
        assert forall|ia: Seq<int>, ib: Seq<int>| #[trigger]
            common_increasing(a, b, ia, ib) implies ia.len() <= max_ans by {
            if ia.len() > 0 {
                assert(0 <= ia[ia.len() - 1] < a.len());
                assert(0 <= ib[ib.len() - 1] < b.len());
                let col = ib.last();
                assert(ends_at(a, b, a.len() as int, col, ia, ib));
                assert(best_at(a, b, a.len() as int, col, column_ans[col] as nat));
            }
        }
    }
    max_ans
}

} // verus!
