//! A segment tree over an array of `i64`: point updates and sums over
//! contiguous ranges, both in logarithmic time.

use std::ops::Range;
use vstd::prelude::*;

verus! {

/// The neutral element of the summed operation.
const ZERO: i64 = 0;

/// The associative operation that the tree folds ranges with.
fn op(a: i64, b: i64) -> (r: i64)
    requires
        i64::MIN <= a + b <= i64::MAX,
    ensures
        r == a + b,
{
    a + b
}

/// The sum of all elements of `s`.
pub open spec fn total(s: Seq<i64>) -> int
    decreases s.len(),
{
    if s.len() == 0 {
        0
    } else {
        total(s.drop_last()) + s.last()
    }
}

/// The sum of the elements of `s` at the indices `from..to`.
pub open spec fn range_sum(s: Seq<i64>, from: int, to: int) -> int {
    total(s.subrange(from, to))
}

/// The sum of every contiguous range of `s` is an `i64`.
pub open spec fn sums_fit(s: Seq<i64>) -> bool {
    forall|i: int, j: int|
        0 <= i <= j <= s.len() ==> i64::MIN <= #[trigger] range_sum(s, i, j) <= i64::MAX
}

/// The sum of a concatenation is the sum of the sums.
pub proof fn lemma_total_concat(a: Seq<i64>, b: Seq<i64>)
    ensures
        total(a + b) == total(a) + total(b),
    decreases b.len(),
{
    if b.len() == 0 {
        assert(a + b =~= a);
    } else {
        lemma_total_concat(a, b.drop_last());
        assert((a + b).drop_last() =~= a + b.drop_last());
    }
}

/// A range sum is the sum of the range sums on both sides of any cut.
pub proof fn lemma_range_sum_cut(s: Seq<i64>, from: int, cut: int, to: int)
    requires
        0 <= from <= cut <= to <= s.len(),
    ensures
        range_sum(s, from, to) == range_sum(s, from, cut) + range_sum(s, cut, to),
{
    lemma_total_concat(s.subrange(from, cut), s.subrange(cut, to));
    assert(s.subrange(from, to) =~= s.subrange(from, cut) + s.subrange(cut, to));
}

/// The range sum over one index is the element there.
pub proof fn lemma_range_sum_single(s: Seq<i64>, at: int)
    requires
        0 <= at < s.len(),
    ensures
        range_sum(s, at, at + 1) == s[at],
{
    let one = s.subrange(at, at + 1);
    assert(one.drop_last() =~= Seq::<i64>::empty());
    assert(total(one.drop_last()) == 0);
}

/// Where no element is larger than `bound` in absolute value, no range sum
/// is larger than `bound` times the length of the range.
pub proof fn lemma_range_sum_bound(s: Seq<i64>, bound: nat, from: int, to: int)
    requires
        0 <= from <= to <= s.len(),
        forall|i: int| 0 <= i < s.len() ==> -bound <= #[trigger] s[i] <= bound,
    ensures
        -((to - from) * bound) <= range_sum(s, from, to) <= (to - from) * bound,
    decreases to - from,
{
    let piece = s.subrange(from, to);
    if from < to {
        lemma_range_sum_bound(s, bound, from, to - 1);
        assert(piece.drop_last() =~= s.subrange(from, to - 1));
        assert(piece.last() == s[to - 1]);
        assert(total(piece) == total(piece.drop_last()) + piece.last());
        assert((to - from) * bound == (to - 1 - from) * bound + bound) by (nonlinear_arith);
    } else {
        assert(total(piece) == 0);
        assert((to - from) * bound == 0) by (nonlinear_arith)
            requires
                to == from,
        ;
    }
}

/// The range sums of a sequence fit where its length times the largest
/// absolute value among its elements does.
pub proof fn lemma_sums_fit(s: Seq<i64>, bound: nat)
    requires
        forall|i: int| 0 <= i < s.len() ==> -bound <= #[trigger] s[i] <= bound,
        s.len() * bound <= i64::MAX,
    ensures
        sums_fit(s),
{
    assert forall|i: int, j: int| 0 <= i <= j <= s.len() implies i64::MIN <= #[trigger] range_sum(
        s,
        i,
        j,
    ) <= i64::MAX by {
        lemma_range_sum_bound(s, bound, i, j);
        assert((j - i) * bound <= s.len() * bound) by (nonlinear_arith)
            requires
                0 <= j - i <= s.len(),
        ;
    }
}

/// Range sums see only the elements inside the range.
proof fn lemma_range_sum_local(a: Seq<i64>, b: Seq<i64>, from: int, to: int)
    requires
        0 <= from <= to <= a.len(),
        to <= b.len(),
        forall|i: int| from <= i < to ==> a[i] == b[i],
    ensures
        range_sum(a, from, to) == range_sum(b, from, to),
{
    assert(a.subrange(from, to) =~= b.subrange(from, to));
}

/// Position `x` of the tree array lies in the subtree of position `id`.
spec fn within(x: int, id: int) -> bool
    decreases x,
{
    if x <= 0 || x < id {
        false
    } else if x == id {
        true
    } else {
        within(x / 2, id)
    }
}

/// The subtrees of the two children of `id` lie inside the subtree of `id`,
/// apart from each other, and neither holds `id`.
proof fn lemma_within_children(x: int, id: int)
    requires
        id >= 1,
    ensures
        within(x, 2 * id) || within(x, 2 * id + 1) ==> within(x, id) && x != id,
        !(within(x, 2 * id) && within(x, 2 * id + 1)),
    decreases x,
{
    if x > 2 * id + 1 {
        lemma_within_children(x / 2, id);
    } else if x == 2 * id + 1 {
        assert(x / 2 == id);
        assert(within(x / 2, id));
        assert(!within(x / 2, 2 * id));
    } else if x == 2 * id {
        assert(x / 2 == id);
        assert(within(x / 2, id));
    }
}

/// The node at position `id`, on the level that starts at position `level`,
/// covers `lo..hi` of an array of `n` elements, and has a place in a tree
/// array of `4 * n` elements if it covers anything.
spec fn placed(n: int, id: int, level: int, lo: int, hi: int) -> bool {
    &&& 1 <= level <= id < 2 * level
    &&& 0 <= lo <= hi <= n
    &&& (hi - lo - 1) * level < n < (hi - lo + 1) * level
    &&& lo < hi ==> id < 4 * n
}

/// The children of a placed node that covers two elements or more are placed.
proof fn lemma_placed_children(n: int, id: int, level: int, lo: int, hi: int)
    requires
        placed(n, id, level, lo, hi),
        hi - lo >= 2,
    ensures
        placed(n, 2 * id, 2 * level, lo, lo + (hi - lo) / 2),
        placed(n, 2 * id + 1, 2 * level, lo + (hi - lo) / 2, hi),
        lo < lo + (hi - lo) / 2 < hi,
{
    let len = hi - lo;
    let half = len / 2;
    assert((half - 1) * (2 * level) < n < (half + 1) * (2 * level)) by (nonlinear_arith)
        requires
            (len - 1) * level < n < (len + 1) * level,
            half == len / 2,
            level >= 1,
            len >= 2,
    ;
    assert((len - half - 1) * (2 * level) < n < (len - half + 1) * (2 * level))
        by (nonlinear_arith)
        requires
            (len - 1) * level < n < (len + 1) * level,
            half == len / 2,
            level >= 1,
            len >= 2,
    ;
    assert(level < n) by (nonlinear_arith)
        requires
            (len - 1) * level < n,
            level >= 1,
            len >= 2,
    ;
}

/// The subtree at position `id` of `tree` stores the sums of `values` over
/// `lo..hi` and over every range that the subtree splits it into.
spec fn holds(tree: Seq<i64>, values: Seq<i64>, id: int, lo: int, hi: int) -> bool
    decreases hi - lo,
{
    if hi - lo <= 0 {
        true
    } else {
        &&& tree[id] == range_sum(values, lo, hi)
        &&& hi - lo >= 2 ==> {
            let mid = lo + (hi - lo) / 2;
            &&& holds(tree, values, 2 * id, lo, mid)
            &&& holds(tree, values, 2 * id + 1, mid, hi)
        }
    }
}

/// What a subtree holds depends on the tree array inside the subtree and on
/// the values inside its range alone.
proof fn lemma_holds_local(
    tree: Seq<i64>,
    values: Seq<i64>,
    tree2: Seq<i64>,
    values2: Seq<i64>,
    level: int,
    id: int,
    lo: int,
    hi: int,
)
    requires
        placed(values.len() as int, id, level, lo, hi),
        values2.len() == values.len(),
        tree.len() == 4 * values.len(),
        tree2.len() == 4 * values.len(),
        holds(tree, values, id, lo, hi),
        forall|x: int| 0 <= x < tree.len() && within(x, id) ==> tree[x] == tree2[x],
        forall|i: int| lo <= i < hi ==> values[i] == values2[i],
    ensures
        holds(tree2, values2, id, lo, hi),
    decreases hi - lo,
{
    if hi - lo > 0 {
        lemma_range_sum_local(values, values2, lo, hi);
        assert(within(id, id));
        if hi - lo >= 2 {
            let mid = lo + (hi - lo) / 2;
            lemma_placed_children(values.len() as int, id, level, lo, hi);
            assert forall|x: int| 0 <= x < tree.len() && within(x, 2 * id) implies tree[x]
                == tree2[x] by {
                lemma_within_children(x, id);
            }
            assert forall|x: int| 0 <= x < tree.len() && within(x, 2 * id + 1) implies tree[x]
                == tree2[x] by {
                lemma_within_children(x, id);
            }
            lemma_holds_local(tree, values, tree2, values2, 2 * level, 2 * id, lo, mid);
            lemma_holds_local(tree, values, tree2, values2, 2 * level, 2 * id + 1, mid, hi);
        }
    }
}

/// A tree array of zeros holds the sums of an array of zeros.
proof fn lemma_zeros_hold(tree: Seq<i64>, values: Seq<i64>, level: int, id: int, lo: int, hi: int)
    requires
        placed(values.len() as int, id, level, lo, hi),
        tree.len() == 4 * values.len(),
        forall|x: int| 0 <= x < tree.len() ==> tree[x] == 0,
        forall|i: int| 0 <= i < values.len() ==> values[i] == 0,
    ensures
        holds(tree, values, id, lo, hi),
    decreases hi - lo,
{
    if hi - lo > 0 {
        lemma_zero_sum(values, lo, hi);
        if hi - lo >= 2 {
            let mid = lo + (hi - lo) / 2;
            lemma_placed_children(values.len() as int, id, level, lo, hi);
            lemma_zeros_hold(tree, values, 2 * level, 2 * id, lo, mid);
            lemma_zeros_hold(tree, values, 2 * level, 2 * id + 1, mid, hi);
        }
    }
}

/// Zeros sum to zero.
proof fn lemma_zero_sum(values: Seq<i64>, lo: int, hi: int)
    requires
        0 <= lo <= hi <= values.len(),
        forall|i: int| 0 <= i < values.len() ==> values[i] == 0,
    ensures
        range_sum(values, lo, hi) == 0,
    decreases hi - lo,
{
    if lo < hi {
        lemma_zero_sum(values, lo, hi - 1);
        assert(values.subrange(lo, hi).drop_last() =~= values.subrange(lo, hi - 1));
    }
}

/// One node of the tree: its position in the tree array and the range of the
/// underlying array that it sums.
#[derive(Debug)]
struct Node {
    id: usize,
    range: Range<usize>,
}

impl Node {
    /// The node has its place, on the level starting at `level`, in the tree
    /// over `n` elements.
    spec fn at(&self, n: int, level: int) -> bool {
        placed(n, self.id as int, level, self.range.start as int, self.range.end as int)
    }

    /// The nodes for the lower and for the upper half of the range.
    fn children(&self, Ghost(n): Ghost<int>, Ghost(level): Ghost<int>) -> (res: (Node, Node))
        requires
            self.at(n, level),
            self.range.end - self.range.start >= 2,
            4 * n <= usize::MAX,
        ensures
            res.0.at(n, 2 * level),
            res.1.at(n, 2 * level),
            res.0.id == 2 * self.id,
            res.1.id == 2 * self.id + 1,
            res.0.range.start == self.range.start,
            res.0.range.end == self.range.start + (self.range.end - self.range.start) / 2,
            res.1.range.start == res.0.range.end,
            res.1.range.end == self.range.end,
            self.range.start < res.0.range.end < self.range.end,
    {
        proof {
            lemma_placed_children(
                n,
                self.id as int,
                level,
                self.range.start as int,
                self.range.end as int,
            );
        }
        let middle = self.range.start + (self.range.end - self.range.start) / 2;
        (
            Node { id: self.id * 2, range: self.range.start..middle },
            Node { id: self.id * 2 + 1, range: middle..self.range.end },
        )
    }
}

/// Sums over the ranges of an array of `i64` that single elements of can be
/// replaced.
pub struct SegmentTree {
    tree: Vec<i64>,
    len: usize,
    values: Ghost<Seq<i64>>,
}

impl View for SegmentTree {
    type V = Seq<i64>;

    open spec fn view(&self) -> Seq<i64> {
        self.values()
    }
}

impl SegmentTree {
    /// The array that the tree sums ranges of.
    pub closed spec fn values(&self) -> Seq<i64> {
        self.values@
    }

    /// The tree array stores the range sums of the array, and all of them fit.
    pub closed spec fn wf(&self) -> bool {
        &&& self.values@.len() == self.len
        &&& self.tree.len() == 4 * self.len
        &&& sums_fit(self.values@)
        &&& holds(self.tree@, self.values@, 1, 0, self.len as int)
    }

    /// A segment tree over `n` zeros.
    pub fn new(n: usize) -> (st: SegmentTree)
        requires
            4 * n <= usize::MAX,
        ensures
            st.wf(),
            st@.len() == n,
            forall|i: int| 0 <= i < n ==> st@[i] == 0,
    {
        let tree = vec![ZERO; 4 * n];
        let ghost values = Seq::new(n as nat, |i: int| 0i64);
        proof {
            lemma_zeros_hold(tree@, values, 1, 1, 0, n as int);
            assert forall|i: int, j: int| 0 <= i <= j <= values.len() implies i64::MIN
                <= #[trigger] range_sum(values, i, j) <= i64::MAX by {
                lemma_zero_sum(values, i, j);
            }
        }
        SegmentTree { tree, len: n, values: Ghost(values) }
    }

    /// A segment tree over the elements of `arr`. [`lemma_sums_fit`] shows
    /// of small enough elements that their range sums fit.
    pub fn from_slice(arr: &[i64]) -> (st: SegmentTree)
        requires
            4 * arr.len() <= usize::MAX,
            sums_fit(arr@),
        ensures
            st.wf(),
            st@ == arr@,
    {
        let mut tree = vec![ZERO; 4 * arr.len()];
        let root = Node { id: 1, range: 0..arr.len() };
        Self::build_recursive(tree.as_mut_slice(), arr, &root, Ghost(1));
        SegmentTree { tree, len: arr.len(), values: Ghost(arr@) }
    }

    /// Replaces the element at `idx` by `value`.
    pub fn update(&mut self, idx: usize, value: i64)
        requires
            old(self).wf(),
            idx < old(self)@.len(),
            sums_fit(old(self)@.update(idx as int, value)),
        ensures
            final(self).wf(),
            final(self)@ == old(self)@.update(idx as int, value),
    {
        let root = self.root();
        Self::update_recursive(
            self.tree.as_mut_slice(),
            &root,
            idx,
            value,
            Ghost(self.values@),
            Ghost(1),
        );
        self.values = Ghost(self.values@.update(idx as int, value));
    }

    fn build_recursive(tree: &mut [i64], arr: &[i64], node: &Node, Ghost(level): Ghost<int>)
        requires
            node.at(arr.len() as int, level),
            old(tree).len() == 4 * arr.len(),
            4 * arr.len() <= usize::MAX,
            sums_fit(arr@),
        ensures
            final(tree).len() == old(tree).len(),
            holds(
                final(tree)@,
                arr@,
                node.id as int,
                node.range.start as int,
                node.range.end as int,
            ),
            forall|x: int|
                0 <= x < old(tree).len() && !within(x, node.id as int) ==> final(tree)[x] == old(
                    tree,
                )[x],
        decreases node.range.end - node.range.start,
    {
        let len = node.range.end - node.range.start;
        if len == 0 {
        } else if len == 1 {
            proof {
                lemma_range_sum_single(arr@, node.range.start as int);
                assert(within(node.id as int, node.id as int));
            }
            tree[node.id] = arr[node.range.start];
        } else {
            let (left_node, right_node) = node.children(Ghost(arr.len() as int), Ghost(level));
            Self::build_recursive(tree, arr, &left_node, Ghost(2 * level));
            let ghost after_left = tree@;
            Self::build_recursive(tree, arr, &right_node, Ghost(2 * level));
            let ghost after_right = tree@;
            proof {
                let id = node.id as int;
                let lo = node.range.start as int;
                let mid = left_node.range.end as int;
                let hi = node.range.end as int;
                assert forall|x: int| 0 <= x < after_left.len() && within(x, 2 * id) implies
                    after_left[x] == after_right[x] by {
                    lemma_within_children(x, id);
                }
                lemma_holds_local(after_left, arr@, after_right, arr@, 2 * level, 2 * id, lo, mid);
                lemma_range_sum_cut(arr@, lo, mid, hi);
                assert(i64::MIN <= range_sum(arr@, lo, hi) <= i64::MAX);
            }
            let both = op(tree[left_node.id], tree[right_node.id]);
            tree[node.id] = both;
            proof {
                let id = node.id as int;
                let lo = node.range.start as int;
                let mid = left_node.range.end as int;
                let hi = node.range.end as int;
                assert forall|x: int|
                    0 <= x < after_right.len() && (within(x, 2 * id) || within(
                        x,
                        2 * id + 1,
                    )) implies after_right[x] == tree@[x] by {
                    lemma_within_children(x, id);
                }
                lemma_holds_local(after_right, arr@, tree@, arr@, 2 * level, 2 * id, lo, mid);
                lemma_holds_local(after_right, arr@, tree@, arr@, 2 * level, 2 * id + 1, mid, hi);
                assert forall|x: int| 0 <= x < old(tree).len() && !within(x, id) implies tree@[x]
                    == old(tree)[x] by {
                    lemma_within_children(x, id);
                }
            }
        }
    }

    fn update_recursive(
        tree: &mut [i64],
        node: &Node,
        idx: usize,
        value: i64,
        Ghost(values): Ghost<Seq<i64>>,
        Ghost(level): Ghost<int>,
    )
        requires
            node.at(values.len() as int, level),
            old(tree).len() == 4 * values.len(),
            4 * values.len() <= usize::MAX,
            node.range.start <= idx < node.range.end,
            sums_fit(values.update(idx as int, value)),
            holds(
                old(tree)@,
                values,
                node.id as int,
                node.range.start as int,
                node.range.end as int,
            ),
        ensures
            final(tree).len() == old(tree).len(),
            holds(
                final(tree)@,
                values.update(idx as int, value),
                node.id as int,
                node.range.start as int,
                node.range.end as int,
            ),
            forall|x: int|
                0 <= x < old(tree).len() && !within(x, node.id as int) ==> final(tree)[x] == old(
                    tree,
                )[x],
        decreases node.range.end - node.range.start,
    {
        let ghost updated = values.update(idx as int, value);
        if node.range.end - node.range.start == 1 {
            proof {
                lemma_range_sum_single(updated, idx as int);
                assert(within(node.id as int, node.id as int));
            }
            tree[node.id] = value;
            return ;
        }
        let (left_node, right_node) = node.children(Ghost(values.len() as int), Ghost(level));
        let ghost id = node.id as int;
        let ghost lo = node.range.start as int;
        let ghost mid = left_node.range.end as int;
        let ghost hi = node.range.end as int;
        if left_node.range.start <= idx && idx < left_node.range.end {
            Self::update_recursive(tree, &left_node, idx, value, Ghost(values), Ghost(2 * level));
            proof {
                assert forall|x: int| 0 <= x < tree.len() && within(x, 2 * id + 1) implies old(
                    tree,
                )[x] == tree@[x] by {
                    lemma_within_children(x, id);
                }
                lemma_holds_local(
                    old(tree)@,
                    values,
                    tree@,
                    updated,
                    2 * level,
                    2 * id + 1,
                    mid,
                    hi,
                );
            }
        } else {
            Self::update_recursive(tree, &right_node, idx, value, Ghost(values), Ghost(2 * level));
            proof {
                assert forall|x: int| 0 <= x < tree.len() && within(x, 2 * id) implies old(
                    tree,
                )[x] == tree@[x] by {
                    lemma_within_children(x, id);
                }
                lemma_holds_local(old(tree)@, values, tree@, updated, 2 * level, 2 * id, lo, mid);
            }
        }
        let ghost below = tree@;
        proof {
            lemma_range_sum_cut(updated, lo, mid, hi);
            assert(i64::MIN <= range_sum(updated, lo, hi) <= i64::MAX);
        }
        let both = op(tree[left_node.id], tree[right_node.id]);
        tree[node.id] = both;
        proof {
            assert forall|x: int|
                0 <= x < below.len() && (within(x, 2 * id) || within(x, 2 * id + 1)) implies
                below[x] == tree@[x] by {
                lemma_within_children(x, id);
            }
            lemma_holds_local(below, updated, tree@, updated, 2 * level, 2 * id, lo, mid);
            lemma_holds_local(below, updated, tree@, updated, 2 * level, 2 * id + 1, mid, hi);
            assert forall|x: int| 0 <= x < old(tree).len() && !within(x, id) implies tree@[x]
                == old(tree)[x] by {
                lemma_within_children(x, id);
            }
        }
    }

    fn root(&self) -> (node: Node)
        requires
            self.wf(),
        ensures
            node.at(self.len as int, 1),
            node.id == 1,
            node.range.start == 0,
            node.range.end == self.len,
    {
        Node { id: 1, range: 0..self.len }
    }

    /// The sum of the elements at the indices of `range`; zero if `range`
    /// is empty.
    pub fn compute(&self, range: Range<usize>) -> (sum: i64)
        requires
            self.wf(),
            range.start < range.end ==> range.end <= self@.len(),
        ensures
            sum == (if range.start < range.end {
                range_sum(self@, range.start as int, range.end as int)
            } else {
                0
            }),
    {
        let root = self.root();
        Self::compute_recursive(self.tree.as_slice(), &root, range, Ghost(self.values@), Ghost(1))
    }

    fn compute_recursive(
        tree: &[i64],
        node: &Node,
        compute_range: Range<usize>,
        Ghost(values): Ghost<Seq<i64>>,
        Ghost(level): Ghost<int>,
    ) -> (sum: i64)
        requires
            node.at(values.len() as int, level),
            tree.len() == 4 * values.len(),
            sums_fit(values),
            holds(tree@, values, node.id as int, node.range.start as int, node.range.end as int),
            compute_range.start < compute_range.end ==> node.range.start <= compute_range.start
                && compute_range.end <= node.range.end,
        ensures
            sum == (if compute_range.start < compute_range.end {
                range_sum(values, compute_range.start as int, compute_range.end as int)
            } else {
                0
            }),
        decreases node.range.end - node.range.start,
    {
        if compute_range.start >= compute_range.end {
            return ZERO;
        }
        if node.range.start == compute_range.start && node.range.end == compute_range.end {
            return tree[node.id];
        }
        let (left_node, right_node) = node.children(Ghost(values.len() as int), Ghost(level));
        let left_end = if compute_range.end < left_node.range.end {
            compute_range.end
        } else {
            left_node.range.end
        };
        let right_start = if compute_range.start > right_node.range.start {
            compute_range.start
        } else {
            right_node.range.start
        };
        let left_compute_range = compute_range.start..left_end;
        let right_compute_range = right_start..compute_range.end;
        let left_value = Self::compute_recursive(
            tree,
            &left_node,
            left_compute_range,
            Ghost(values),
            Ghost(2 * level),
        );
        let right_value = Self::compute_recursive(
            tree,
            &right_node,
            right_compute_range,
            Ghost(values),
            Ghost(2 * level),
        );
        proof {
            let from = compute_range.start as int;
            let to = compute_range.end as int;
            let mid = left_node.range.end as int;
            if from < mid && mid < to {
                lemma_range_sum_cut(values, from, mid, to);
            }
            assert(i64::MIN <= range_sum(values, from, to) <= i64::MAX);
        }
        op(left_value, right_value)
    }
}

} // verus!
