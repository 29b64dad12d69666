//! A treap: a binary search tree on keys that is at the same time a min-heap
//! on weights. Every operation is composed from two primitives, splitting a
//! tree around a key and merging two trees whose keys do not interleave.

use std::cmp::Ordering;
use vstd::prelude::*;
use vstd::std_specs::cmp::OrdSpec;

verus! {

/// `a` sorts strictly before `b`.
pub open spec fn lt<T: Ord>(a: T, b: T) -> bool {
    a.cmp_spec(&b) == Ordering::Less
}

/// `a` does not sort after `b`.
pub open spec fn le<T: Ord>(a: T, b: T) -> bool {
    a.cmp_spec(&b) != Ordering::Greater
}

/// The caller's side of the ordering contract: `T::cmp` is a strict total
/// order, and two values compare equal exactly when they are the same value.
pub open spec fn total_order<T: Ord>() -> bool {
    &&& T::obeys_cmp_spec()
    &&& forall|a: T, b: T| #[trigger] a.cmp_spec(&b) == Ordering::Equal <==> a == b
    &&& forall|a: T, b: T| #[trigger]
        a.cmp_spec(&b) == Ordering::Less <==> b.cmp_spec(&a) == Ordering::Greater
    &&& forall|a: T, b: T, c: T|
        #![trigger a.cmp_spec(&b), b.cmp_spec(&c)]
        lt(a, b) && lt(b, c) ==> lt(a, c)
}

/// The bindings of `m` whose key sorts strictly before `pivot`.
pub open spec fn below<K: Ord, V>(m: Map<K, V>, pivot: K) -> Map<K, V> {
    m.restrict(Set::new(|k: K| lt(k, pivot)))
}

/// The binding of `pivot` in `m`, if there is one.
pub open spec fn at<K: Ord, V>(m: Map<K, V>, pivot: K) -> Map<K, V> {
    m.restrict(Set::new(|k: K| k == pivot))
}

/// The bindings of `m` whose key sorts strictly after `pivot`.
pub open spec fn above<K: Ord, V>(m: Map<K, V>, pivot: K) -> Map<K, V> {
    m.restrict(Set::new(|k: K| lt(pivot, k)))
}

/// Every key of `lo` sorts strictly before every key of `hi`.
pub open spec fn all_before<K: Ord, V>(lo: Map<K, V>, hi: Map<K, V>) -> bool {
    forall|a: K, b: K| #[trigger] lo.contains_key(a) && #[trigger] hi.contains_key(b) ==> lt(a, b)
}

/// The number of keys of `m` that sort strictly before `pivot`.
pub open spec fn rank<K: Ord, V>(m: Map<K, V>, pivot: K) -> nat {
    below(m, pivot).dom().len()
}

/// `found` is the binding of `m` with the least key that does not sort before
/// `pivot`, or nothing if every key of `m` sorts before `pivot`.
pub open spec fn is_successor<K: Ord, V>(m: Map<K, V>, pivot: K, found: Option<(K, V)>) -> bool {
    match found {
        Some((key, value)) => {
            &&& m.contains_key(key)
            &&& m[key] == value
            &&& le(pivot, key)
            &&& forall|other: K| #[trigger] m.contains_key(other) && le(pivot, other) ==> le(key, other)
        },
        None => forall|other: K| #[trigger] m.contains_key(other) ==> lt(other, pivot),
    }
}

/// An owned, possibly empty subtree.
pub type Link<K, V, W> = Option<Box<Node<K, V, W>>>;

/// One binding of the map together with the two subtrees below it and the
/// cached number of nodes in the subtree rooted here.
#[derive(Debug)]
pub struct Node<K, V, W> {
    key: K,
    value: V,
    weight: W,
    left: Link<K, V, W>,
    right: Link<K, V, W>,
    size: usize,
}

impl<K: Ord, V, W: Ord> Node<K, V, W> {
    /// The bindings stored in `tree`.
    pub closed spec fn bindings(tree: Link<K, V, W>) -> Map<K, V>
        decreases tree,
    {
        match tree {
            None => Map::empty(),
            Some(node) => Self::bindings(node.left).insert(node.key, node.value).union_prefer_right(
                Self::bindings(node.right),
            ),
        }
    }

    /// The weight that each key of `tree` is stored with.
    pub closed spec fn weights(tree: Link<K, V, W>) -> Map<K, W>
        decreases tree,
    {
        match tree {
            None => Map::empty(),
            Some(node) => Self::weights(node.left).insert(node.key, node.weight).union_prefer_right(
                Self::weights(node.right),
            ),
        }
    }

    /// The key at the root of `tree`.
    pub closed spec fn root_key(tree: Link<K, V, W>) -> Option<K> {
        match tree {
            None => None,
            Some(node) => Some(node.key),
        }
    }

    /// The keys that have a weight are the keys that are bound, and the root
    /// is one of them.
    pub proof fn lemma_same_keys(tree: Link<K, V, W>)
        ensures
            Self::weights(tree).dom() == Self::bindings(tree).dom(),
            Self::root_key(tree) matches Some(key) ==> Self::bindings(tree).contains_key(key),
        decreases tree,
    {
        match tree {
            None => {},
            Some(node) => {
                Self::lemma_same_keys(node.left);
                Self::lemma_same_keys(node.right);
                assert(Self::weights(tree).dom() =~= Self::bindings(tree).dom());
            },
        }
    }

    /// The bindings of `tree` as an in-order traversal meets them.
    pub closed spec fn in_order(tree: Link<K, V, W>) -> Seq<(K, V)>
        decreases tree,
    {
        match tree {
            None => Seq::empty(),
            Some(node) => Self::in_order(node.left).push((node.key, node.value)) + Self::in_order(
                node.right,
            ),
        }
    }

    /// The number of nodes in `tree`.
    pub closed spec fn count(tree: Link<K, V, W>) -> nat
        decreases tree,
    {
        match tree {
            None => 0,
            Some(node) => 1 + Self::count(node.left) + Self::count(node.right),
        }
    }

    /// The size that the root of `tree` has cached; zero for the empty tree.
    pub closed spec fn cached_size(tree: Link<K, V, W>) -> nat {
        match tree {
            None => 0,
            Some(node) => node.size as nat,
        }
    }

    /// The root of `tree`, if there is one, weighs at least `bound`.
    pub closed spec fn root_at_least(tree: Link<K, V, W>, bound: W) -> bool {
        match tree {
            None => true,
            Some(node) => le(bound, node.weight),
        }
    }

    /// Every node caches one more than the cached sizes of its children.
    pub closed spec fn sizes_cached(tree: Link<K, V, W>) -> bool
        decreases tree,
    {
        match tree {
            None => true,
            Some(node) => {
                &&& node.size == 1 + Self::cached_size(node.left) + Self::cached_size(node.right)
                &&& Self::sizes_cached(node.left)
                &&& Self::sizes_cached(node.right)
            },
        }
    }

    /// At every node the keys to the left sort strictly before the node's key,
    /// and the keys to the right strictly after it.
    pub closed spec fn search_ordered(tree: Link<K, V, W>) -> bool
        decreases tree,
    {
        match tree {
            None => true,
            Some(node) => {
                &&& forall|k: K| #[trigger]
                    Self::bindings(node.left).contains_key(k) ==> lt(k, node.key)
                &&& forall|k: K| #[trigger]
                    Self::bindings(node.right).contains_key(k) ==> lt(node.key, k)
                &&& Self::search_ordered(node.left)
                &&& Self::search_ordered(node.right)
            },
        }
    }

    /// No node weighs less than its parent.
    pub closed spec fn heap_ordered(tree: Link<K, V, W>) -> bool
        decreases tree,
    {
        match tree {
            None => true,
            Some(node) => {
                &&& Self::root_at_least(node.left, node.weight)
                &&& Self::root_at_least(node.right, node.weight)
                &&& Self::heap_ordered(node.left)
                &&& Self::heap_ordered(node.right)
            },
        }
    }

    /// The three invariants of a treap, at every node of `tree`.
    pub open spec fn well_formed(tree: Link<K, V, W>) -> bool {
        &&& Self::sizes_cached(tree)
        &&& Self::search_ordered(tree)
        &&& Self::heap_ordered(tree)
    }

    /// `tree` is one node without children that binds `key`.
    pub closed spec fn is_leaf_for(tree: Link<K, V, W>, key: K) -> bool {
        match tree {
            None => false,
            Some(node) => node.key == key && node.left is None && node.right is None,
        }
    }

    /// The tree of one node that binds `key` to `value` under `weight`.
    pub closed spec fn leaf(key: K, value: V, weight: W) -> Link<K, V, W> {
        Some(Box::new(Node { key, value, weight, left: None, right: None, size: 1 }))
    }

    /// A node without children.
    pub fn new(key: K, value: V, weight: W) -> (node: Self)
        ensures
            Some(Box::new(node)) == Self::leaf(key, value, weight),
            Self::well_formed(Some(Box::new(node))),
            Self::is_leaf_for(Some(Box::new(node)), key),
            Self::bindings(Some(Box::new(node))) == Map::<K, V>::empty().insert(key, value),
            Self::weights(Some(Box::new(node))) == Map::<K, W>::empty().insert(key, weight),
            Self::root_key(Some(Box::new(node))) == Some(key),
            Self::in_order(Some(Box::new(node))) == seq![(key, value)],
            Self::cached_size(Some(Box::new(node))) == 1,
            forall|bound: W| le(bound, weight) ==> Self::root_at_least(Some(Box::new(node)), bound),
    {
        let node = Self { key, value, weight, left: None, right: None, size: 1 };
        proof {
            let tree = Some(Box::new(node));
            assert(Self::bindings(node.left) =~= Map::empty());
            assert(Self::bindings(node.right) =~= Map::empty());
            assert(Self::in_order(node.left) =~= Seq::empty());
            assert(Self::in_order(node.right) =~= Seq::empty());
            assert(Self::bindings(tree) =~= Map::<K, V>::empty().insert(key, value));
            assert(Self::weights(node.left) =~= Map::empty());
            assert(Self::weights(node.right) =~= Map::empty());
            assert(Self::weights(tree) =~= Map::<K, W>::empty().insert(key, weight));
            assert(Self::well_formed(node.left) && Self::well_formed(node.right));
            assert(Self::in_order(tree) =~= seq![(key, value)]);
        }
        node
    }

    /// The tree that hangs below a borrowed root.
    pub open spec fn rooted(node: Option<&Node<K, V, W>>) -> Link<K, V, W> {
        match node {
            Some(root) => Some(Box::new(*root)),
            None => None,
        }
    }

    /// Borrows the root of `tree`.
    fn peek(tree: &Link<K, V, W>) -> (node: Option<&Node<K, V, W>>)
        ensures
            Self::rooted(node) == *tree,
    {
        match tree {
            Some(root) => Some(&**root),
            None => None,
        }
    }

    /// The cached number of nodes below and including `node`.
    pub fn size(node: Option<&Node<K, V, W>>) -> (n: usize)
        ensures
            n == Self::cached_size(Self::rooted(node)),
    {
        match node {
            Some(root) => root.size,
            None => 0,
        }
    }

    fn update_size(&mut self)
        requires
            1 + Self::cached_size(old(self).left) + Self::cached_size(old(self).right)
                <= usize::MAX,
        ensures
            final(self).size == 1 + Self::cached_size(old(self).left) + Self::cached_size(
                old(self).right,
            ),
            final(self).key == old(self).key,
            final(self).value == old(self).value,
            final(self).weight == old(self).weight,
            final(self).left == old(self).left,
            final(self).right == old(self).right,
    {
        self.size = 1 + Self::size(Self::peek(&self.left)) + Self::size(Self::peek(&self.right));
    }

    /// `parts` is what splitting `tree` around `key` gives: the bindings below
    /// `key`, the binding of `key` as a single node, and the bindings above
    /// `key`, each part a treap of its own in which no root is lighter than
    /// the root of `tree`.
    pub open spec fn is_split(
        tree: Link<K, V, W>,
        key: K,
        parts: (Link<K, V, W>, Link<K, V, W>, Link<K, V, W>),
    ) -> bool {
        &&& Self::well_formed(parts.0)
        &&& Self::well_formed(parts.1)
        &&& Self::well_formed(parts.2)
        &&& Self::bindings(parts.0) == below(Self::bindings(tree), key)
        &&& Self::bindings(parts.1) == at(Self::bindings(tree), key)
        &&& Self::bindings(parts.2) == above(Self::bindings(tree), key)
        &&& Self::weights(parts.0) == below(Self::weights(tree), key)
        &&& Self::weights(parts.1) == at(Self::weights(tree), key)
        &&& Self::weights(parts.2) == above(Self::weights(tree), key)
        &&& Self::in_order(parts.0) + Self::in_order(parts.1) + Self::in_order(parts.2)
            == Self::in_order(tree)
        &&& parts.1 is Some <==> Self::bindings(tree).contains_key(key)
        &&& parts.1 is Some ==> Self::is_leaf_for(parts.1, key)
        &&& Self::cached_size(parts.0) + Self::cached_size(parts.1) + Self::cached_size(parts.2)
            == Self::cached_size(tree)
        &&& forall|bound: W|
            Self::root_at_least(tree, bound) ==> Self::root_at_least(parts.0, bound)
                && Self::root_at_least(parts.1, bound) && Self::root_at_least(parts.2, bound)
    }

    /// `left` and `right` are treaps that can be merged: no key of `left`
    /// reaches a key of `right`, and their sizes together fit a `usize`.
    pub open spec fn mergeable(left: Link<K, V, W>, right: Link<K, V, W>) -> bool {
        &&& Self::well_formed(left)
        &&& Self::well_formed(right)
        &&& all_before(Self::bindings(left), Self::bindings(right))
        &&& Self::cached_size(left) + Self::cached_size(right) <= usize::MAX
    }

    /// `joined` is what merging `left` and `right` gives: a treap of the
    /// bindings of both under their weights. Its root is the lighter of the
    /// two roots, and the root of `right` where they weigh the same.
    pub open spec fn is_merge(
        left: Link<K, V, W>,
        right: Link<K, V, W>,
        joined: Link<K, V, W>,
    ) -> bool {
        &&& Self::well_formed(joined)
        &&& Self::bindings(joined) == Self::bindings(left).union_prefer_right(
            Self::bindings(right),
        )
        &&& Self::weights(joined) == Self::weights(left).union_prefer_right(Self::weights(right))
        &&& Self::in_order(joined) == Self::in_order(left) + Self::in_order(right)
        &&& Self::cached_size(joined) == Self::cached_size(left) + Self::cached_size(right)
        &&& (Self::root_key(left), Self::root_key(right)) matches (Some(l), Some(r))
            ==> Self::root_key(joined) == (if lt(Self::weights(left)[l], Self::weights(right)[r]) {
            Some(l)
        } else {
            Some(r)
        })
        &&& left is None ==> joined == right
        &&& right is None ==> joined == left
        &&& forall|bound: W|
            Self::root_at_least(left, bound) && Self::root_at_least(right, bound)
                ==> Self::root_at_least(joined, bound)
    }

    /// The three trees that splitting `tree` around `key` gives, node by node:
    /// the nodes on the way to `key` keep all that hangs on their far side,
    /// and take on their near side what is left there.
    pub closed spec fn split(tree: Link<K, V, W>, key: K) -> (
        Link<K, V, W>,
        Link<K, V, W>,
        Link<K, V, W>,
    )
        decreases tree,
    {
        match tree {
            None => (None, None, None),
            Some(node) => if key == node.key {
                (
                    node.left,
                    Some(
                        Box::new(
                            Node {
                                key: node.key,
                                value: node.value,
                                weight: node.weight,
                                left: None,
                                right: None,
                                size: 1,
                            },
                        ),
                    ),
                    node.right,
                )
            } else if lt(key, node.key) {
                let parts = Self::split(node.left, key);
                (
                    parts.0,
                    parts.1,
                    Some(
                        Box::new(
                            Node {
                                key: node.key,
                                value: node.value,
                                weight: node.weight,
                                left: parts.2,
                                right: node.right,
                                size: (1 + Self::cached_size(parts.2) + Self::cached_size(
                                    node.right,
                                )) as usize,
                            },
                        ),
                    ),
                )
            } else {
                let parts = Self::split(node.right, key);
                (
                    Some(
                        Box::new(
                            Node {
                                key: node.key,
                                value: node.value,
                                weight: node.weight,
                                left: node.left,
                                right: parts.0,
                                size: (1 + Self::cached_size(node.left) + Self::cached_size(
                                    parts.0,
                                )) as usize,
                            },
                        ),
                    ),
                    parts.1,
                    parts.2,
                )
            },
        }
    }

    /// The tree that merging `left` and `right` gives, node by node: the
    /// lighter root, or the right one of two that weigh the same, is the
    /// root, and takes on its near side the other tree merged with what
    /// hung there.
    pub closed spec fn merged(left: Link<K, V, W>, right: Link<K, V, W>) -> Link<K, V, W>
        decreases Self::count(left) + Self::count(right),
    {
        match (left, right) {
            (None, _) => right,
            (_, None) => left,
            (Some(l), Some(r)) => if lt(l.weight, r.weight) {
                let below = Self::merged(l.right, right);
                Some(
                    Box::new(
                        Node {
                            key: l.key,
                            value: l.value,
                            weight: l.weight,
                            left: l.left,
                            right: below,
                            size: (1 + Self::cached_size(l.left) + Self::cached_size(below)) as usize,
                        },
                    ),
                )
            } else {
                let below = Self::merged(left, r.left);
                Some(
                    Box::new(
                        Node {
                            key: r.key,
                            value: r.value,
                            weight: r.weight,
                            left: below,
                            right: r.right,
                            size: (1 + Self::cached_size(below) + Self::cached_size(r.right)) as usize,
                        },
                    ),
                )
            },
        }
    }

    /// Splitting a treap gives three treaps that share its bindings out by
    /// the way their keys compare with the key of the split.
    pub proof fn lemma_split(tree: Link<K, V, W>, key: K)
        requires
            total_order::<K>(),
            total_order::<W>(),
            Self::well_formed(tree),
        ensures
            Self::is_split(tree, key, Self::split(tree, key)),
    {
        Self::lemma_split_bindings(tree, key);
        Self::lemma_split_weights(tree, key);
        Self::lemma_split_in_order(tree, key);
        Self::lemma_split_well_formed(tree, key);
    }

    /// A split shares the bindings out by the way their keys compare with
    /// the key of the split.
    proof fn lemma_split_bindings(tree: Link<K, V, W>, key: K)
        requires
            total_order::<K>(),
            Self::search_ordered(tree),
        ensures
            Self::bindings(Self::split(tree, key).0) == below(Self::bindings(tree), key),
            Self::bindings(Self::split(tree, key).1) == at(Self::bindings(tree), key),
            Self::bindings(Self::split(tree, key).2) == above(Self::bindings(tree), key),
            Self::split(tree, key).1 is Some <==> Self::bindings(tree).contains_key(key),
            Self::split(tree, key).1 is Some ==> Self::is_leaf_for(Self::split(tree, key).1, key),
        decreases tree,
    {
        let parts = Self::split(tree, key);
        let m = Self::bindings(tree);
        match tree {
            None => {
                assert(below(m, key) =~= m);
                assert(at(m, key) =~= m);
                assert(above(m, key) =~= m);
            },
            Some(node) => {
                let ml = Self::bindings(node.left);
                let mr = Self::bindings(node.right);
                if key == node.key {
                    assert(Self::bindings(None) =~= Map::<K, V>::empty());
                    assert(Self::bindings(parts.1) =~= at(m, key));
                    assert(ml =~= below(m, key));
                    assert(mr =~= above(m, key));
                } else if lt(key, node.key) {
                    Self::lemma_split_bindings(node.left, key);
                    assert(Self::bindings(parts.0) =~= below(m, key));
                    assert(Self::bindings(parts.1) =~= at(m, key));
                    assert(Self::bindings(parts.2) =~= above(m, key));
                } else {
                    Self::lemma_split_bindings(node.right, key);
                    assert(Self::bindings(parts.0) =~= below(m, key));
                    assert(Self::bindings(parts.1) =~= at(m, key));
                    assert(Self::bindings(parts.2) =~= above(m, key));
                }
            },
        }
    }

    /// A split shares the weights out with the bindings.
    proof fn lemma_split_weights(tree: Link<K, V, W>, key: K)
        requires
            total_order::<K>(),
            Self::search_ordered(tree),
        ensures
            Self::weights(Self::split(tree, key).0) == below(Self::weights(tree), key),
            Self::weights(Self::split(tree, key).1) == at(Self::weights(tree), key),
            Self::weights(Self::split(tree, key).2) == above(Self::weights(tree), key),
        decreases tree,
    {
        let parts = Self::split(tree, key);
        let w = Self::weights(tree);
        match tree {
            None => {
                assert(below(w, key) =~= w);
                assert(at(w, key) =~= w);
                assert(above(w, key) =~= w);
            },
            Some(node) => {
                let wl = Self::weights(node.left);
                let wr = Self::weights(node.right);
                Self::lemma_same_keys(node.left);
                Self::lemma_same_keys(node.right);
                assert forall|k: K| #[trigger] wl.contains_key(k) implies lt(k, node.key) by {
                    assert(Self::bindings(node.left).contains_key(k));
                }
                assert forall|k: K| #[trigger] wr.contains_key(k) implies lt(node.key, k) by {
                    assert(Self::bindings(node.right).contains_key(k));
                }
                if key == node.key {
                    assert(Self::weights(None) =~= Map::<K, W>::empty());
                    assert(Self::weights(parts.1) =~= at(w, key));
                    assert(wl =~= below(w, key));
                    assert(wr =~= above(w, key));
                } else if lt(key, node.key) {
                    Self::lemma_split_weights(node.left, key);
                    assert(Self::weights(parts.0) =~= below(w, key));
                    assert(Self::weights(parts.1) =~= at(w, key));
                    assert(Self::weights(parts.2) =~= above(w, key));
                } else {
                    Self::lemma_split_weights(node.right, key);
                    assert(Self::weights(parts.0) =~= below(w, key));
                    assert(Self::weights(parts.1) =~= at(w, key));
                    assert(Self::weights(parts.2) =~= above(w, key));
                }
            },
        }
    }

    /// A split cuts the in-order traversal in three.
    proof fn lemma_split_in_order(tree: Link<K, V, W>, key: K)
        ensures
            Self::in_order(Self::split(tree, key).0) + Self::in_order(Self::split(tree, key).1)
                + Self::in_order(Self::split(tree, key).2) == Self::in_order(tree),
        decreases tree,
    {
        let parts = Self::split(tree, key);
        let s = Self::in_order(tree);
        match tree {
            None => {
                assert(s + s + s =~= s);
            },
            Some(node) => {
                if key == node.key {
                    assert(Self::in_order(None) =~= Seq::<(K, V)>::empty());
                    assert(Self::in_order(parts.1) =~= seq![(node.key, node.value)]);
                    assert(Self::in_order(parts.0) + Self::in_order(parts.1) + Self::in_order(
                        parts.2,
                    ) =~= s);
                } else if lt(key, node.key) {
                    let inner = Self::split(node.left, key);
                    Self::lemma_split_in_order(node.left, key);
                    assert(Self::in_order(parts.0) + Self::in_order(parts.1) + Self::in_order(
                        parts.2,
                    ) =~= (Self::in_order(inner.0) + Self::in_order(inner.1) + Self::in_order(
                        inner.2,
                    )).push((node.key, node.value)) + Self::in_order(node.right));
                } else {
                    let inner = Self::split(node.right, key);
                    Self::lemma_split_in_order(node.right, key);
                    assert(Self::in_order(parts.0) + Self::in_order(parts.1) + Self::in_order(
                        parts.2,
                    ) =~= Self::in_order(node.left).push((node.key, node.value)) + (
                    Self::in_order(inner.0) + Self::in_order(inner.1) + Self::in_order(inner.2)));
                }
            },
        }
    }

    /// A split gives three treaps, of as many nodes as the treap that was
    /// split, and with no root lighter than its root.
    proof fn lemma_split_well_formed(tree: Link<K, V, W>, key: K)
        requires
            total_order::<K>(),
            total_order::<W>(),
            Self::well_formed(tree),
        ensures
            Self::well_formed(Self::split(tree, key).0),
            Self::well_formed(Self::split(tree, key).1),
            Self::well_formed(Self::split(tree, key).2),
            Self::cached_size(Self::split(tree, key).0) + Self::cached_size(
                Self::split(tree, key).1,
            ) + Self::cached_size(Self::split(tree, key).2) == Self::cached_size(tree),
            forall|bound: W|
                Self::root_at_least(tree, bound) ==> Self::root_at_least(
                    Self::split(tree, key).0,
                    bound,
                ) && Self::root_at_least(Self::split(tree, key).1, bound) && Self::root_at_least(
                    Self::split(tree, key).2,
                    bound,
                ),
        decreases tree,
    {
        let parts = Self::split(tree, key);
        match tree {
            None => {},
            Some(node) => {
                if key == node.key {
                    assert(Self::bindings(None) =~= Map::<K, V>::empty());
                    assert(Self::well_formed(None));
                } else if lt(key, node.key) {
                    let inner = Self::split(node.left, key);
                    Self::lemma_split_well_formed(node.left, key);
                    Self::lemma_split_bindings(node.left, key);
                    assert forall|k: K| #[trigger]
                        Self::bindings(inner.2).contains_key(k) implies Self::bindings(
                        node.left,
                    ).contains_key(k) by {}
                } else {
                    let inner = Self::split(node.right, key);
                    Self::lemma_split_well_formed(node.right, key);
                    Self::lemma_split_bindings(node.right, key);
                    assert forall|k: K| #[trigger]
                        Self::bindings(inner.0).contains_key(k) implies Self::bindings(
                        node.right,
                    ).contains_key(k) by {}
                }
            },
        }
    }

    /// Splits `node` around `split_key` into the tree of the keys that sort
    /// before it, the node that binds it (if any, and then without children),
    /// and the tree of the keys that sort after it.
    pub fn split_by(node: Link<K, V, W>, split_key: &K) -> (res: (
        Link<K, V, W>,
        Link<K, V, W>,
        Link<K, V, W>,
    ))
        requires
            total_order::<K>(),
            total_order::<W>(),
            Self::well_formed(node),
        ensures
            res == Self::split(node, *split_key),
            Self::is_split(node, *split_key, res),
        decreases node,
    {
        proof {
            Self::lemma_split(node, *split_key);
        }
        match node {
            None => (None, None, None),
            Some(mut root) => {
                match split_key.cmp(&root.key) {
                    Ordering::Equal => {
                        let left_tree = root.left.take();
                        let right_tree = root.right.take();
                        root.update_size();
                        (left_tree, Some(root), right_tree)
                    },
                    Ordering::Less => {
                        let (left_tree, split_node, right_tree) = Self::split_by(
                            root.left.take(),
                            split_key,
                        );
                        root.left = right_tree;
                        root.update_size();
                        (left_tree, split_node, Some(root))
                    },
                    Ordering::Greater => {
                        let (left_tree, split_node, right_tree) = Self::split_by(
                            root.right.take(),
                            split_key,
                        );
                        root.right = left_tree;
                        root.update_size();
                        (Some(root), split_node, right_tree)
                    },
                }
            },
        }
    }

    /// Merging two mergeable treaps gives a treap of the bindings of both.
    pub proof fn lemma_merged(left: Link<K, V, W>, right: Link<K, V, W>)
        requires
            total_order::<K>(),
            total_order::<W>(),
            Self::mergeable(left, right),
        ensures
            Self::is_merge(left, right, Self::merged(left, right)),
        decreases Self::count(left) + Self::count(right),
    {
        let joined = Self::merged(left, right);
        let ml = Self::bindings(left);
        let mr = Self::bindings(right);
        let wl = Self::weights(left);
        let wr = Self::weights(right);
        Self::lemma_same_keys(left);
        Self::lemma_same_keys(right);
        match (left, right) {
            (None, _) => {
                assert(ml.union_prefer_right(mr) =~= mr);
                assert(wl.union_prefer_right(wr) =~= wr);
                assert(Self::in_order(left) + Self::in_order(right) =~= Self::in_order(right));
            },
            (_, None) => {
                assert(ml.union_prefer_right(mr) =~= ml);
                assert(wl.union_prefer_right(wr) =~= wl);
                assert(Self::in_order(left) + Self::in_order(right) =~= Self::in_order(left));
            },
            (Some(l), Some(r)) => {
                Self::lemma_same_keys(l.left);
                Self::lemma_same_keys(l.right);
                Self::lemma_same_keys(r.left);
                Self::lemma_same_keys(r.right);
                assert(ml.contains_key(l.key));
                assert(mr.contains_key(r.key));
                assert(wl[l.key] == l.weight) by {
                    if Self::weights(l.right).contains_key(l.key) {
                        assert(Self::bindings(l.right).contains_key(l.key));
                    }
                }
                assert(wr[r.key] == r.weight) by {
                    if Self::weights(r.right).contains_key(r.key) {
                        assert(Self::bindings(r.right).contains_key(r.key));
                    }
                }
                if lt(l.weight, r.weight) {
                    let inner = Self::bindings(l.right);
                    assert forall|k: K| #[trigger] inner.contains_key(k) implies ml.contains_key(
                        k,
                    ) by {}
                    Self::lemma_merged(l.right, right);
                    assert(Self::bindings(joined) =~= ml.union_prefer_right(mr));
                    assert(Self::weights(joined) =~= wl.union_prefer_right(wr));
                    assert(Self::in_order(joined) =~= Self::in_order(left) + Self::in_order(right));
                } else {
                    let inner = Self::bindings(r.left);
                    assert forall|k: K| #[trigger] inner.contains_key(k) implies mr.contains_key(
                        k,
                    ) by {}
                    Self::lemma_merged(left, r.left);
                    assert(Self::bindings(joined) =~= ml.union_prefer_right(mr));
                    assert(Self::weights(joined) =~= wl.union_prefer_right(wr));
                    assert(Self::in_order(joined) =~= Self::in_order(left) + Self::in_order(right));
                }
            },
        }
    }

    /// Joins two trees, every key of `left_node` sorting before every key of
    /// `right_node`, into one.
    ///
    /// The root of the result is the lighter of the two roots; on a tie it is
    /// the root of `right_node`.
    pub fn merge(left_node: Link<K, V, W>, right_node: Link<K, V, W>) -> (res: Link<K, V, W>)
        requires
            total_order::<K>(),
            total_order::<W>(),
            Self::mergeable(left_node, right_node),
        ensures
            res == Self::merged(left_node, right_node),
            Self::is_merge(left_node, right_node, res),
        decreases Self::count(left_node) + Self::count(right_node),
    {
        proof {
            Self::lemma_merged(left_node, right_node);
        }
        let mut left_root = match left_node {
            None => {
                return right_node;
            },
            Some(root) => root,
        };
        let mut right_root = match right_node {
            None => {
                return Some(left_root);
            },
            Some(root) => root,
        };
        match left_root.weight.cmp(&right_root.weight) {
            Ordering::Less => {
                proof {
                    let inner = Self::bindings(left_root.right);
                    assert forall|k: K| #[trigger] inner.contains_key(k) implies Self::bindings(
                        left_node,
                    ).contains_key(k) by {}
                }
                let below_right = left_root.right.take();
                left_root.right = Self::merge(below_right, Some(right_root));
                left_root.update_size();
                Some(left_root)
            },
            Ordering::Equal | Ordering::Greater => {
                proof {
                    let inner = Self::bindings(right_root.left);
                    assert forall|k: K| #[trigger] inner.contains_key(k) implies Self::bindings(
                        right_node,
                    ).contains_key(k) by {}
                }
                let below_left = right_root.left.take();
                right_root.left = Self::merge(Some(left_root), below_left);
                right_root.update_size();
                Some(right_root)
            },
        }
    }

    /// A well-formed tree holds finitely many bindings, one per node, and the
    /// size cached at its root is their number.
    pub proof fn lemma_size_is_len(tree: Link<K, V, W>)
        requires
            total_order::<K>(),
            Self::well_formed(tree),
        ensures
            Self::bindings(tree).dom().finite(),
            Self::cached_size(tree) == Self::bindings(tree).len(),
            Self::cached_size(tree) == Self::count(tree),
        decreases tree,
    {
        match tree {
            None => {},
            Some(node) => {
                Self::lemma_size_is_len(node.left);
                Self::lemma_size_is_len(node.right);
                let dl = Self::bindings(node.left).dom();
                let dr = Self::bindings(node.right).dom();
                assert(!dl.contains(node.key)) by {
                    if dl.contains(node.key) {
                        assert(Self::bindings(node.left).contains_key(node.key));
                    }
                }
                assert(dl.insert(node.key).disjoint(dr)) by {
                    assert forall|k: K| dl.insert(node.key).contains(k) implies !dr.contains(k) by {
                        if dr.contains(k) {
                            assert(Self::bindings(node.right).contains_key(k));
                            if k != node.key {
                                assert(Self::bindings(node.left).contains_key(k));
                            }
                        }
                    }
                }
                vstd::set_lib::lemma_set_disjoint_lens(dl.insert(node.key), dr);
                assert(Self::bindings(tree).dom() =~= dl.insert(node.key) + dr);
            },
        }
    }

    /// Splitting a treap around any key and merging the three parts again, from
    /// left to right, is always possible and gives a treap with the bindings,
    /// and so the keys, of the treap that was split, in the same order and
    /// under the same weights.
    pub proof fn lemma_split_merge_inverse(tree: Link<K, V, W>, key: K)
        requires
            total_order::<K>(),
            total_order::<W>(),
            Self::well_formed(tree),
        ensures
            ({
                let parts = Self::split(tree, key);
                let lower = Self::merged(parts.0, parts.1);
                let whole = Self::merged(lower, parts.2);
                &&& Self::mergeable(parts.0, parts.1)
                &&& Self::mergeable(lower, parts.2)
                &&& Self::well_formed(whole)
                &&& Self::bindings(whole) == Self::bindings(tree)
                &&& Self::bindings(whole).dom() == Self::bindings(tree).dom()
                &&& Self::weights(whole) == Self::weights(tree)
                &&& Self::in_order(whole) == Self::in_order(tree)
                &&& Self::cached_size(whole) == Self::cached_size(tree)
            }),
    {
        let parts = Self::split(tree, key);
        let lower = Self::merged(parts.0, parts.1);
        let whole = Self::merged(lower, parts.2);
        Self::lemma_split(tree, key);
        assert(all_before(Self::bindings(parts.0), Self::bindings(parts.1)));
        Self::lemma_merged(parts.0, parts.1);
        assert forall|a: K, b: K| #[trigger]
            Self::bindings(lower).contains_key(a) && #[trigger] Self::bindings(
                parts.2,
            ).contains_key(b) implies lt(a, b) by {
            if a != key {
                assert(Self::bindings(parts.0).contains_key(a));
            }
        }
        Self::lemma_merged(lower, parts.2);
        assert(Self::bindings(whole) =~= Self::bindings(tree));
        assert(Self::weights(whole) =~= Self::weights(tree));
    }

    /// The in-order traversal of a well-formed tree meets the keys in strictly
    /// increasing order, and what it meets are exactly the bindings of the
    /// tree, one per node.
    pub proof fn lemma_in_order_increasing(tree: Link<K, V, W>)
        requires
            total_order::<K>(),
            Self::well_formed(tree),
        ensures
            Self::in_order(tree).len() == Self::cached_size(tree),
            forall|i: int, j: int|
                0 <= i < j < Self::in_order(tree).len() ==> lt(
                    #[trigger] Self::in_order(tree)[i].0,
                    #[trigger] Self::in_order(tree)[j].0,
                ),
            forall|i: int|
                0 <= i < Self::in_order(tree).len() ==> Self::bindings(tree).contains_pair(
                    (#[trigger] Self::in_order(tree)[i]).0,
                    Self::in_order(tree)[i].1,
                ),
            forall|k: K| #[trigger]
                Self::bindings(tree).contains_key(k) ==> Self::in_order(tree).contains(
                    (k, Self::bindings(tree)[k]),
                ),
        decreases tree,
    {
        match tree {
            None => {},
            Some(node) => {
                Self::lemma_in_order_increasing(node.left);
                Self::lemma_in_order_increasing(node.right);
                let l = Self::in_order(node.left);
                let r = Self::in_order(node.right);
                let s = Self::in_order(tree);
                let ml = Self::bindings(node.left);
                let mr = Self::bindings(node.right);
                let m = Self::bindings(tree);
                let mid = l.len() as int;
                assert(s =~= l.push((node.key, node.value)) + r);
                assert forall|i: int| 0 <= i < s.len() implies (if i < mid {
                    s[i] == l[i] && ml.contains_pair(s[i].0, s[i].1)
                } else if i == mid {
                    s[i] == (node.key, node.value)
                } else {
                    s[i] == r[i - mid - 1] && mr.contains_pair(s[i].0, s[i].1)
                }) by {}
                assert forall|k: K| #[trigger] ml.contains_key(k) implies !mr.contains_key(k) by {
                    if mr.contains_key(k) {
                        assert(lt(k, node.key) && lt(node.key, k));
                    }
                }
                assert forall|i: int| 0 <= i < s.len() implies m.contains_pair(
                    (#[trigger] s[i]).0,
                    s[i].1,
                ) by {
                    if i < mid {
                        assert(ml.contains_key(s[i].0));
                    } else if i > mid {
                        assert(mr.contains_key(s[i].0));
                    } else {
                        assert(!mr.contains_key(node.key)) by {
                            if mr.contains_key(node.key) {
                                assert(lt(node.key, node.key));
                            }
                        }
                    }
                }
                assert forall|i: int, j: int| 0 <= i < j < s.len() implies lt(
                    #[trigger] s[i].0,
                    #[trigger] s[j].0,
                ) by {
                    if j < mid {
                        assert(lt(l[i].0, l[j].0));
                    } else if i > mid {
                        assert(lt(r[i - mid - 1].0, r[j - mid - 1].0));
                    } else {
                        if i < mid {
                            assert(ml.contains_key(s[i].0));
                        }
                        if j > mid {
                            assert(mr.contains_key(s[j].0));
                        }
                    }
                }
                assert forall|k: K| #[trigger] m.contains_key(k) implies s.contains((k, m[k])) by {
                    if mr.contains_key(k) {
                        let i = choose|i: int| 0 <= i < r.len() && r[i] == (k, mr[k]);
                        assert(s[mid + 1 + i] == (k, m[k]));
                    } else if k == node.key {
                        assert(s[mid] == (k, m[k]));
                    } else {
                        assert(ml.contains_key(k));
                        let i = choose|i: int| 0 <= i < l.len() && l[i] == (k, ml[k]);
                        assert(s[i] == (k, m[k]));
                    }
                }
            },
        }
    }

    /// The node with the least key that does not sort before `search_key`.
    pub fn find_greater_or_equal<'n>(
        node: Option<&'n Node<K, V, W>>,
        search_key: &K,
    ) -> (found: Option<&'n Node<K, V, W>>)
        requires
            total_order::<K>(),
            Self::well_formed(Self::rooted(node)),
        ensures
            is_successor(
                Self::bindings(Self::rooted(node)),
                *search_key,
                Self::binding_of(found),
            ),
        decreases node,
    {
        let root = match node {
            None => {
                return None;
            },
            Some(root) => root,
        };
        let ghost m = Self::bindings(Self::rooted(node));
        let ghost ml = Self::bindings(root.left);
        let ghost mr = Self::bindings(root.right);
        proof {
            assert(m.contains_key(root.key) && m[root.key] == root.value) by {
                if mr.contains_key(root.key) {
                }
            }
            assert forall|k: K| #[trigger] m.contains_key(k) implies k == root.key
                || ml.contains_key(k) || mr.contains_key(k) by {}
            assert forall|k: K| #[trigger] ml.contains_key(k) implies m.contains_key(k) && m[k]
                == ml[k] by {
                if mr.contains_key(k) {
                }
            }
            assert forall|k: K| #[trigger] mr.contains_key(k) implies m.contains_key(k) && m[k]
                == mr[k] by {}
        }
        match search_key.cmp(&root.key) {
            Ordering::Equal => {
                assert(is_successor(m, *search_key, Self::binding_of(Some(root))));
                Some(root)
            },
            Ordering::Less => {
                let below_root = Self::find_greater_or_equal(Self::peek(&root.left), search_key);
                match below_root {
                    Some(inner) => {
                        assert(ml.contains_key(inner.key));
                        assert(is_successor(m, *search_key, Self::binding_of(Some(inner))));
                        Some(inner)
                    },
                    None => {
                        assert(is_successor(m, *search_key, Self::binding_of(Some(root))));
                        Some(root)
                    },
                }
            },
            Ordering::Greater => {
                let above_root = Self::find_greater_or_equal(Self::peek(&root.right), search_key);
                proof {
                    if let Some(inner) = above_root {
                        assert(mr.contains_key(inner.key));
                    }
                    assert(is_successor(m, *search_key, Self::binding_of(above_root)));
                }
                above_root
            },
        }
    }

    /// The binding that a borrowed node holds.
    pub closed spec fn binding_of(node: Option<&Node<K, V, W>>) -> Option<(K, V)> {
        match node {
            Some(root) => Some((root.key, root.value)),
            None => None,
        }
    }

    /// The key and the value that this node binds.
    pub fn binding(&self) -> (binding: (&K, &V))
        ensures
            Self::binding_of(Some(self)) == Some((*binding.0, *binding.1)),
    {
        (&self.key, &self.value)
    }

    /// The number of keys in the tree below `node` that sort strictly before
    /// `search_key`.
    pub fn count_less(node: Option<&Node<K, V, W>>, search_key: &K) -> (n: usize)
        requires
            total_order::<K>(),
            Self::well_formed(Self::rooted(node)),
        ensures
            n == rank(Self::bindings(Self::rooted(node)), *search_key),
        decreases node,
    {
        let root = match node {
            None => {
                proof {
                    let m = Self::bindings(Self::rooted(node));
                    assert(below(m, *search_key).dom() =~= Set::empty());
                }
                return 0;
            },
            Some(root) => root,
        };
        let ghost m = Self::bindings(Self::rooted(node));
        let ghost ml = Self::bindings(root.left);
        let ghost mr = Self::bindings(root.right);
        proof {
            Self::lemma_size_is_len(Self::rooted(node));
            Self::lemma_size_is_len(root.left);
            Self::lemma_size_is_len(root.right);
        }
        match search_key.cmp(&root.key) {
            Ordering::Equal => {
                assert(below(m, *search_key).dom() =~= ml.dom());
                Self::size(Self::peek(&root.left))
            },
            Ordering::Less => {
                assert(below(m, *search_key).dom() =~= below(ml, *search_key).dom());
                Self::count_less(Self::peek(&root.left), search_key)
            },
            Ordering::Greater => {
                let in_right = Self::count_less(Self::peek(&root.right), search_key);
                proof {
                    let lo = ml.dom().insert(root.key);
                    let hi = below(mr, *search_key).dom();
                    assert(!ml.dom().contains(root.key)) by {
                        if ml.dom().contains(root.key) {
                            assert(ml.contains_key(root.key));
                        }
                    }
                    assert(hi.subset_of(mr.dom()));
                    vstd::set_lib::lemma_set_subset_finite(mr.dom(), hi);
                    vstd::set_lib::lemma_len_subset(hi, mr.dom());
                    assert(lo.disjoint(hi)) by {
                        assert forall|k: K| lo.contains(k) implies !hi.contains(k) by {
                            if hi.contains(k) {
                                assert(mr.contains_key(k));
                                if k != root.key {
                                    assert(ml.contains_key(k));
                                }
                            }
                        }
                    }
                    vstd::set_lib::lemma_set_disjoint_lens(lo, hi);
                    assert(below(m, *search_key).dom() =~= lo + hi) by {
                        assert forall|k: K| lo.contains(k) implies lt(k, *search_key) by {
                            if k != root.key {
                                assert(ml.contains_key(k));
                            }
                        }
                    }
                }
                Self::size(node) - Self::size(Self::peek(&root.right)) + in_right
            },
        }
    }
}

/// An ordered map from `K` to `V`, balanced by the weights that its bindings
/// were inserted with.
#[derive(Debug)]
pub struct Treap<K, V, W> {
    root: Link<K, V, W>,
}

impl<K: Ord, V, W: Ord> View for Treap<K, V, W> {
    type V = Map<K, V>;

    open spec fn view(&self) -> Map<K, V> {
        self.bindings()
    }
}

impl<K: Ord, V, W: Ord> Treap<K, V, W> {
    /// The bindings of the map.
    pub closed spec fn bindings(&self) -> Map<K, V> {
        Node::bindings(self.root)
    }

    /// The tree that holds the bindings.
    pub closed spec fn tree(&self) -> Link<K, V, W> {
        self.root
    }

    /// The weight that each key of the map was inserted with.
    pub closed spec fn weights(&self) -> Map<K, W> {
        Node::weights(self.root)
    }

    /// The bindings of the map in the order of an in-order traversal.
    pub closed spec fn in_order(&self) -> Seq<(K, V)> {
        Node::in_order(self.root)
    }

    /// The tree below the root keeps the three invariants of a treap.
    pub closed spec fn wf(&self) -> bool {
        Node::well_formed(self.root)
    }

    /// The empty map.
    pub fn new() -> (treap: Self)
        ensures
            treap.wf(),
            treap.tree() is None,
            treap@ == Map::<K, V>::empty(),
            treap.weights() == Map::<K, W>::empty(),
    {
        Self { root: None }
    }

    /// Whatever insertions and removals led to a treap, its in-order traversal
    /// meets the keys in strictly increasing order, and what it meets are
    /// exactly the bindings of the map.
    pub proof fn lemma_in_order_increasing(&self)
        requires
            total_order::<K>(),
            self.wf(),
        ensures
            self@.dom().finite(),
            self.in_order().len() == self@.len(),
            forall|i: int, j: int|
                0 <= i < j < self.in_order().len() ==> lt(
                    #[trigger] self.in_order()[i].0,
                    #[trigger] self.in_order()[j].0,
                ),
            forall|i: int|
                0 <= i < self.in_order().len() ==> self@.contains_pair(
                    (#[trigger] self.in_order()[i]).0,
                    self.in_order()[i].1,
                ),
            forall|k: K| #[trigger]
                self@.contains_key(k) ==> self.in_order().contains((k, self@[k])),
    {
        Node::lemma_in_order_increasing(self.root);
        Node::lemma_size_is_len(self.root);
    }

    /// Binds `key` to `value`, with `weight` as the priority of the binding.
    /// An earlier binding of `key` is replaced, and its value is returned.
    pub fn insert(&mut self, key: K, value: V, weight: W) -> (previous: Option<V>)
        requires
            total_order::<K>(),
            total_order::<W>(),
            old(self).wf(),
            old(self)@.len() < usize::MAX,
        ensures
            final(self).wf(),
            final(self)@ == old(self)@.insert(key, value),
            final(self).weights() == old(self).weights().insert(key, weight),
            final(self).tree() == Node::merged(
                Node::merged(
                    Node::split(old(self).tree(), key).0,
                    Node::leaf(key, value, weight),
                ),
                Node::split(old(self).tree(), key).2,
            ),
            previous == (if old(self)@.contains_key(key) {
                Some(old(self)@[key])
            } else {
                None
            }),
    {
        let ghost m = self@;
        let ghost w = self.weights();
        proof {
            Node::lemma_size_is_len(self.root);
        }
        let (left_node, key_node, right_node) = Node::split_by(self.root.take(), &key);
        let new_node = Box::new(Node::new(key, value, weight));
        let ghost fresh = Node::bindings(Some(new_node));
        let lower = Node::merge(left_node, Some(new_node));
        proof {
            assert forall|a: K, b: K| #[trigger]
                Node::bindings(lower).contains_key(a) && #[trigger] Node::bindings(
                    right_node,
                ).contains_key(b) implies lt(a, b) by {
                if a != key {
                    assert(Node::bindings(left_node).contains_key(a));
                }
            }
        }
        self.root = Node::merge(lower, right_node);
        proof {
            assert(self@ =~= m.insert(key, value));
            assert(self.weights() =~= w.insert(key, weight));
        }
        match key_node {
            Some(node) => {
                proof {
                    assert(Node::bindings(node.left) =~= Map::empty());
                    assert(Node::bindings(node.right) =~= Map::empty());
                    assert(node.key == key && node.left is None && node.right is None);
                    assert(Node::bindings(key_node)[key] == node.value);
                    assert(at(m, key)[key] == m[key]);
                }
                Some(node.value)
            },
            None => None,
        }
    }

    /// Removes the binding of `key` and returns it; `None`, and no change, if
    /// `key` is not bound.
    pub fn remove(&mut self, key: &K) -> (removed: Option<(K, V)>)
        requires
            total_order::<K>(),
            total_order::<W>(),
            old(self).wf(),
        ensures
            final(self).wf(),
            final(self)@ == old(self)@.remove(*key),
            final(self).weights() == old(self).weights().remove(*key),
            final(self).tree() == Node::merged(
                Node::split(old(self).tree(), *key).0,
                Node::split(old(self).tree(), *key).2,
            ),
            removed == (if old(self)@.contains_key(*key) {
                Some((*key, old(self)@[*key]))
            } else {
                None
            }),
            !old(self)@.contains_key(*key) ==> final(self)@ == old(self)@ && final(self).weights()
                == old(self).weights() && final(self).in_order() == old(self).in_order(),
    {
        let ghost m = self@;
        let ghost w = self.weights();
        proof {
            Node::lemma_size_is_len(self.root);
        }
        let (left_node, key_node, right_node) = Node::split_by(self.root.take(), key);
        proof {
            assert forall|a: K, b: K| #[trigger]
                Node::bindings(left_node).contains_key(a) && #[trigger] Node::bindings(
                    right_node,
                ).contains_key(b) implies lt(a, b) by {}
        }
        self.root = Node::merge(left_node, right_node);
        proof {
            assert(self@ =~= m.remove(*key));
            assert(self.weights() =~= w.remove(*key));
            if !m.contains_key(*key) {
                assert(m.remove(*key) =~= m);
                Node::lemma_same_keys(old(self).root);
                assert(w.remove(*key) =~= w);
                assert(Node::in_order(key_node) =~= Seq::empty());
                assert(self.in_order() =~= old(self).in_order());
            }
        }
        match key_node {
            Some(node) => {
                proof {
                    assert(Node::bindings(node.left) =~= Map::empty());
                    assert(Node::bindings(node.right) =~= Map::empty());
                    assert(node.key == *key && node.left is None && node.right is None);
                    assert(Node::bindings(key_node)[*key] == node.value);
                    assert(at(m, *key)[*key] == m[*key]);
                }
                let unboxed = *node;
                Some((unboxed.key, unboxed.value))
            },
            None => None,
        }
    }

    /// The binding with the least key that does not sort before `search_key`.
    pub fn find_greater_or_equal(&self, search_key: &K) -> (found: Option<(&K, &V)>)
        requires
            total_order::<K>(),
            self.wf(),
        ensures
            is_successor(
                self@,
                *search_key,
                match found {
                    Some((key, value)) => Some((*key, *value)),
                    None => None,
                },
            ),
    {
        match Node::find_greater_or_equal(Node::peek(&self.root), search_key) {
            Some(node) => Some(node.binding()),
            None => None,
        }
    }

    /// The number of keys in the map that sort strictly before `search_key`.
    pub fn count_less(&self, search_key: &K) -> (n: usize)
        requires
            total_order::<K>(),
            self.wf(),
        ensures
            n == rank(self@, *search_key),
    {
        Node::count_less(Node::peek(&self.root), search_key)
    }
}

/// The state that every [`RandomTreap`] starts its weight sequence from.
pub const RNG_SEED: u32 = 1_415_811;

/// The multiplier of the linear congruential weight generator.
pub const RNG_MULTIPLIER: u32 = 22_695_477;

/// The increment of the linear congruential weight generator.
pub const RNG_INCREMENT: u32 = 1;

/// The state that follows `state` in the weight sequence:
/// `state * 22695477 + 1` modulo `2^32`.
pub open spec fn next_weight(state: u32) -> u32 {
    ((state * RNG_MULTIPLIER + RNG_INCREMENT) % 0x1_0000_0000) as u32
}

/// A treap that weighs each inserted binding with the next number of a fixed
/// linear congruential sequence. The shape of the tree depends on nothing but
/// the order of the insertions.
#[derive(Debug)]
pub struct RandomTreap<K, V> {
    treap: Treap<K, V, u32>,
    rng_state: u32,
}

impl<K: Ord, V> View for RandomTreap<K, V> {
    type V = Map<K, V>;

    open spec fn view(&self) -> Map<K, V> {
        self.bindings()
    }
}

impl<K: Ord, V> RandomTreap<K, V> {
    /// The bindings of the map.
    pub closed spec fn bindings(&self) -> Map<K, V> {
        self.treap@
    }

    /// The treap that holds the bindings.
    pub closed spec fn treap(&self) -> Treap<K, V, u32> {
        self.treap
    }

    /// The weight that each key of the map was inserted with.
    pub closed spec fn weights(&self) -> Map<K, u32> {
        self.treap.weights()
    }

    /// The weight that the latest insertion used.
    pub closed spec fn state(&self) -> u32 {
        self.rng_state
    }

    /// The underlying treap keeps its invariants.
    pub closed spec fn wf(&self) -> bool {
        self.treap.wf()
    }

    /// The empty map, at the start of the weight sequence.
    pub fn new() -> (treap: Self)
        ensures
            treap.wf(),
            treap@ == Map::<K, V>::empty(),
            treap.weights() == Map::<K, u32>::empty(),
            treap.treap().tree() is None,
            treap.state() == RNG_SEED,
    {
        Self { treap: Treap::new(), rng_state: RNG_SEED }
    }

    /// Binds `key` to `value` under the next weight of the sequence. An earlier
    /// binding of `key` is replaced, and its value is returned.
    pub fn insert(&mut self, key: K, value: V) -> (previous: Option<V>)
        requires
            total_order::<K>(),
            old(self).wf(),
            old(self)@.len() < usize::MAX,
        ensures
            final(self).wf(),
            final(self)@ == old(self)@.insert(key, value),
            final(self).state() == next_weight(old(self).state()),
            final(self).weights() == old(self).weights().insert(key, final(self).state()),
            final(self).treap().tree() == Node::merged(
                Node::merged(
                    Node::split(old(self).treap().tree(), key).0,
                    Node::leaf(key, value, final(self).state()),
                ),
                Node::split(old(self).treap().tree(), key).2,
            ),
            previous == (if old(self)@.contains_key(key) {
                Some(old(self)@[key])
            } else {
                None
            }),
    {
        let weight = self.next_rand();
        self.treap.insert(key, value, weight)
    }

    fn next_rand(&mut self) -> (weight: u32)
        ensures
            weight == next_weight(old(self).rng_state),
            final(self).rng_state == weight,
            final(self).treap == old(self).treap,
    {
        let product = self.rng_state.wrapping_mul(RNG_MULTIPLIER);
        let weight = product.wrapping_add(RNG_INCREMENT);
        proof {
            let exact = self.rng_state as int * RNG_MULTIPLIER as int;
            assert(product as int == exact % 0x1_0000_0000);
            vstd::arithmetic::div_mod::lemma_add_mod_noop(exact, 1, 0x1_0000_0000);
            vstd::arithmetic::div_mod::lemma_small_mod(1, 0x1_0000_0000);
            assert(weight as int == (product as int + 1) % 0x1_0000_0000);
        }
        self.rng_state = weight;
        weight
    }
}

} // verus!
