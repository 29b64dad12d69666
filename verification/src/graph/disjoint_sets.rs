//! Disjoint sets over `0..n` with path compression.

use vstd::prelude::*;

verus! {

/// Every parent is an element, and walking to the parent climbs in height,
/// which `bound` caps.
pub open spec fn is_forest(parent: Seq<usize>, height: Seq<nat>, bound: nat) -> bool {
    &&& height.len() == parent.len()
    &&& forall|i: int| 0 <= i < parent.len() ==> #[trigger] parent[i] < parent.len()
    &&& forall|i: int| 0 <= i < parent.len() ==> #[trigger] height[i] <= bound
    &&& forall|i: int|
        0 <= i < parent.len() && parent[i] != i ==> height[i] < #[trigger] height[parent[i] as int]
}

/// The root of the tree that `i` stands in.
pub open spec fn root(parent: Seq<usize>, height: Seq<nat>, bound: nat, i: int) -> int
    decreases bound - height[i],
    when is_forest(parent, height, bound) && 0 <= i < parent.len()
{
    if parent[i] == i {
        i
    } else {
        root(parent, height, bound, parent[i] as int)
    }
}

/// The root of an element is an element that is its own parent, and is the
/// root of every element on the way up.
pub proof fn lemma_root(parent: Seq<usize>, height: Seq<nat>, bound: nat, i: int)
    requires
        is_forest(parent, height, bound),
        0 <= i < parent.len(),
    ensures
        0 <= root(parent, height, bound, i) < parent.len(),
        parent[root(parent, height, bound, i)] == root(parent, height, bound, i),
        height[i] <= height[root(parent, height, bound, i)],
        root(parent, height, bound, parent[i] as int) == root(parent, height, bound, i),
    decreases bound - height[i],
{
    if parent[i] != i {
        lemma_root(parent, height, bound, parent[i] as int);
    }
}

/// Hanging `u` below an element higher up in its own tree moves no root.
proof fn lemma_shortcut(
    parent: Seq<usize>,
    height: Seq<nat>,
    bound: nat,
    u: int,
    target: usize,
    i: int,
)
    requires
        is_forest(parent, height, bound),
        0 <= u < parent.len(),
        target < parent.len(),
        parent[u] != u,
        height[u] < height[target as int],
        root(parent, height, bound, target as int) == root(parent, height, bound, u),
        0 <= i < parent.len(),
    ensures
        is_forest(parent.update(u, target), height, bound),
        root(parent.update(u, target), height, bound, i) == root(parent, height, bound, i),
    decreases bound - height[i],
{
    let after = parent.update(u, target);
    assert(is_forest(after, height, bound));
    if i == u {
        lemma_shortcut(parent, height, bound, u, target, target as int);
    } else if parent[i] != i {
        lemma_shortcut(parent, height, bound, u, target, parent[i] as int);
    }
}

/// Hanging the root `pu` below another root `pv` gives the elements of the
/// tree of `pu` the root `pv` and leaves all other roots alone.
proof fn lemma_link(parent: Seq<usize>, height: Seq<nat>, bound: nat, pu: int, pv: usize, i: int)
    requires
        is_forest(parent, height, bound),
        0 <= pu < parent.len(),
        pv < parent.len(),
        parent[pu] == pu,
        parent[pv as int] == pv,
        pu != pv,
        0 <= i < parent.len(),
    ensures
        is_forest(
            parent.update(pu, pv),
            height.update(pv as int, height[pv as int] + height[pu] + 1),
            2 * bound + 1,
        ),
        root(
            parent.update(pu, pv),
            height.update(pv as int, height[pv as int] + height[pu] + 1),
            2 * bound + 1,
            i,
        ) == (if root(parent, height, bound, i) == pu {
            pv as int
        } else {
            root(parent, height, bound, i)
        }),
    decreases bound - height[i],
{
    let after = parent.update(pu, pv);
    let raised = height.update(pv as int, height[pv as int] + height[pu] + 1);
    assert(is_forest(after, raised, 2 * bound + 1)) by {
        assert forall|k: int| 0 <= k < after.len() && after[k] != k implies raised[k]
            < #[trigger] raised[after[k] as int] by {
            if k != pu {
                assert(height[k] < height[parent[k] as int]);
            }
        }
    }
    if i == pu {
        assert(root(after, raised, 2 * bound + 1, pv as int) == pv);
    } else if parent[i] != i {
        lemma_link(parent, height, bound, pu, pv, parent[i] as int);
    }
}

/// A partition of `0..n` into sets, each with one of its elements as leader.
pub struct DisjointSets {
    parent: Vec<usize>,
    height: Ghost<Seq<nat>>,
    bound: Ghost<nat>,
}

impl DisjointSets {
    /// The number of elements.
    pub closed spec fn len(&self) -> nat {
        self.parent.len() as nat
    }

    /// The parent links form a forest.
    pub closed spec fn wf(&self) -> bool {
        is_forest(self.parent@, self.height@, self.bound@)
    }

    /// The leader of the set that `u` belongs to.
    pub closed spec fn leader_of(&self, u: int) -> int {
        root(self.parent@, self.height@, self.bound@, u)
    }

    /// `u` and `v` belong to the same set.
    pub open spec fn together(&self, u: int, v: int) -> bool {
        self.leader_of(u) == self.leader_of(v)
    }

    /// A leader is an element, and its own leader.
    pub proof fn lemma_leader(&self, u: int)
        requires
            self.wf(),
            0 <= u < self.len(),
        ensures
            0 <= self.leader_of(u) < self.len(),
            self.leader_of(self.leader_of(u)) == self.leader_of(u),
    {
        lemma_root(self.parent@, self.height@, self.bound@, u);
        lemma_root(self.parent@, self.height@, self.bound@, self.leader_of(u));
    }

    /// `size` sets of one element each.
    pub fn new(size: usize) -> (sets: Self)
        ensures
            sets.wf(),
            sets.len() == size,
            forall|u: int| 0 <= u < size ==> sets.leader_of(u) == u,
    {
        let mut parent: Vec<usize> = Vec::new();
        let mut i: usize = 0;
        while i < size
            invariant
                i <= size,
                parent.len() == i,
                forall|k: int| 0 <= k < i ==> parent[k] == k,
            decreases size - i,
        {
            parent.push(i);
            i += 1;
        }
        let ghost height = Seq::new(size as nat, |k: int| 0nat);
        Self { parent, height: Ghost(height), bound: Ghost(0) }
    }

    /// The leader of the set of `u`. The elements that the way to the leader
    /// passes are hung closer to it; no set changes.
    pub fn leader(&mut self, u: usize) -> (leader: usize)
        requires
            old(self).wf(),
            u < old(self).len(),
        ensures
            final(self).wf(),
            final(self).len() == old(self).len(),
            leader == old(self).leader_of(u as int),
            leader < old(self).len(),
            forall|i: int|
                0 <= i < old(self).len() ==> final(self).leader_of(i) == old(self).leader_of(i),
    {
        proof {
            self.lemma_leader(u as int);
        }
        let mut cur = u;
        loop
            invariant
                self.wf(),
                self.len() == old(self).len(),
                self.height@ == old(self).height@,
                self.bound@ == old(self).bound@,
                cur < self.len(),
                self.leader_of(cur as int) == old(self).leader_of(u as int),
                forall|i: int|
                    0 <= i < old(self).len() ==> self.leader_of(i) == old(self).leader_of(i),
            decreases self.bound@ - self.height@[cur as int],
        {
            let v = self.parent[cur];
            if cur == v {
                proof {
                    lemma_root(self.parent@, self.height@, self.bound@, cur as int);
                    assert(root(self.parent@, self.height@, self.bound@, cur as int) == cur);
                }
                return cur;
            }
            let above = self.parent[v];
            proof {
                let parent = self.parent@;
                let height = self.height@;
                let bound = self.bound@;
                lemma_root(parent, height, bound, cur as int);
                lemma_root(parent, height, bound, v as int);
                if above != v {
                    assert forall|i: int| 0 <= i < parent.len() implies root(
                        parent.update(cur as int, above),
                        height,
                        bound,
                        i,
                    ) == root(parent, height, bound, i) && is_forest(
                        parent.update(cur as int, above),
                        height,
                        bound,
                    ) by {
                        lemma_shortcut(parent, height, bound, cur as int, above, i);
                    }
                } else {
                    assert(parent.update(cur as int, above) =~= parent);
                }
            }
            self.parent.set(cur, above);
            cur = v;
        }
    }

    /// Unites the set of `u` with the set of `v`, whose leader leads the
    /// union. Tells whether the two were different sets.
    pub fn merge(&mut self, u: usize, v: usize) -> (merged: bool)
        requires
            old(self).wf(),
            u < old(self).len(),
            v < old(self).len(),
        ensures
            final(self).wf(),
            final(self).len() == old(self).len(),
            merged == !old(self).together(u as int, v as int),
            forall|i: int|
                0 <= i < old(self).len() ==> final(self).leader_of(i) == (if old(self).together(
                    i,
                    u as int,
                ) {
                    old(self).leader_of(v as int)
                } else {
                    old(self).leader_of(i)
                }),
    {
        let pu = self.leader(u);
        let pv = self.leader(v);
        proof {
            let parent = self.parent@;
            let height = self.height@;
            let bound = self.bound@;
            lemma_root(parent, height, bound, u as int);
            lemma_root(parent, height, bound, v as int);
            if pu != pv {
                assert forall|i: int| 0 <= i < parent.len() implies root(
                    parent.update(pu as int, pv),
                    height.update(pv as int, height[pv as int] + height[pu as int] + 1),
                    2 * bound + 1,
                    i,
                ) == (if root(parent, height, bound, i) == pu {
                    pv as int
                } else {
                    root(parent, height, bound, i)
                }) && is_forest(
                    parent.update(pu as int, pv),
                    height.update(pv as int, height[pv as int] + height[pu as int] + 1),
                    2 * bound + 1,
                ) by {
                    lemma_link(parent, height, bound, pu as int, pv, i);
                }
                self.height@ = height.update(pv as int, height[pv as int] + height[pu as int] + 1);
                self.bound@ = 2 * bound + 1;
            } else {
                assert(parent.update(pu as int, pv) =~= parent);
            }
        }
        self.parent.set(pu, pv);
        pu != pv
    }

    /// Tells whether `u` and `v` belong to the same set.
    pub fn same(&mut self, u: usize, v: usize) -> (same: bool)
        requires
            old(self).wf(),
            u < old(self).len(),
            v < old(self).len(),
        ensures
            final(self).wf(),
            final(self).len() == old(self).len(),
            same == old(self).together(u as int, v as int),
            forall|i: int|
                0 <= i < old(self).len() ==> final(self).leader_of(i) == old(self).leader_of(i),
    {
        let pu = self.leader(u);
        let pv = self.leader(v);
        pu == pv
    }
}

} // verus!
