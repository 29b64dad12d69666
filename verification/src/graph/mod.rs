//! A compact adjacency list representation of a directed multigraph, and
//! disjoint sets over its vertices.

use vstd::prelude::*;

pub mod disjoint_sets;

verus! {

/// The latest among the first `upto` edges that starts at `u`, where `tail`
/// lists the start of each edge.
pub open spec fn latest_from(tail: Seq<usize>, u: usize, upto: int) -> Option<usize>
    decreases upto,
{
    if upto <= 0 {
        None
    } else if tail[upto - 1] == u {
        Some((upto - 1) as usize)
    } else {
        latest_from(tail, u, upto - 1)
    }
}

/// Those among the first `upto` of `edges` that start at `u`, the latest
/// first, each as the pair of its number and the vertex it points to.
pub open spec fn out_edges(edges: Seq<(usize, usize)>, u: usize, upto: int) -> Seq<(usize, usize)>
    decreases upto,
{
    if upto <= 0 {
        Seq::empty()
    } else if edges[upto - 1].0 == u {
        seq![((upto - 1) as usize, edges[upto - 1].1)] + out_edges(edges, u, upto - 1)
    } else {
        out_edges(edges, u, upto - 1)
    }
}

/// What the first `upto` edges say does not depend on later edges.
proof fn lemma_prefix(
    tail: Seq<usize>,
    tail2: Seq<usize>,
    edges: Seq<(usize, usize)>,
    edges2: Seq<(usize, usize)>,
    u: usize,
    upto: int,
)
    requires
        upto <= tail.len(),
        upto <= tail2.len(),
        upto <= edges.len(),
        upto <= edges2.len(),
        forall|e: int| 0 <= e < upto ==> tail[e] == tail2[e] && edges[e] == edges2[e],
    ensures
        latest_from(tail, u, upto) == latest_from(tail2, u, upto),
        out_edges(edges, u, upto) == out_edges(edges2, u, upto),
    decreases upto,
{
    if upto > 0 {
        lemma_prefix(tail, tail2, edges, edges2, u, upto - 1);
    }
}

/// The latest edge from `u` is one of the edges counted, and starts the
/// list of the edges from `u`.
proof fn lemma_latest(tail: Seq<usize>, edges: Seq<(usize, usize)>, u: usize, upto: int)
    requires
        0 <= upto <= tail.len(),
        tail.len() == edges.len(),
        tail.len() <= usize::MAX,
        forall|e: int| 0 <= e < tail.len() ==> tail[e] == edges[e].0,
    ensures
        match latest_from(tail, u, upto) {
            Some(e) => e < upto && tail[e as int] == u && out_edges(edges, u, upto) == seq![
                (e, edges[e as int].1),
            ] + out_edges(edges, u, e as int),
            None => out_edges(edges, u, upto) == Seq::<(usize, usize)>::empty(),
        },
    decreases upto,
{
    if upto > 0 {
        lemma_latest(tail, edges, u, upto - 1);
    }
}

/// A directed multigraph on the vertices `0..n`. Edges are numbered in the
/// order of their insertion, and each vertex lists the edges that start at it.
pub struct Graph {
    /// Maps a vertex to the latest edge that starts at it.
    first: Vec<Option<usize>>,
    /// Maps an edge to the edge before it that starts at the same vertex.
    next: Vec<Option<usize>>,
    /// Maps an edge to the vertex that it points to.
    endp: Vec<usize>,
    /// Maps an edge to the vertex that it starts at.
    tail: Ghost<Seq<usize>>,
}

impl View for Graph {
    type V = Seq<(usize, usize)>;

    open spec fn view(&self) -> Seq<(usize, usize)> {
        self.edges()
    }
}

impl Graph {
    /// The edges in the order of their insertion, each as the pair of the
    /// vertex it starts at and the vertex it points to.
    pub closed spec fn edges(&self) -> Seq<(usize, usize)> {
        Seq::new(self.endp.len() as nat, |e: int| (self.tail@[e], self.endp[e]))
    }

    /// The number of vertices.
    pub closed spec fn vertices(&self) -> nat {
        self.first.len() as nat
    }

    /// The lists of the vertices link the edges that start at them.
    pub closed spec fn wf(&self) -> bool {
        &&& self.next.len() == self.endp.len()
        &&& self.tail@.len() == self.endp.len()
        &&& forall|e: int| 0 <= e < self.tail@.len() ==> #[trigger] self.tail@[e] < self.first.len()
        &&& forall|u: int|
            0 <= u < self.first.len() ==> #[trigger] self.first[u] == latest_from(
                self.tail@,
                u as usize,
                self.endp.len() as int,
            )
        &&& forall|e: int|
            0 <= e < self.next.len() ==> #[trigger] self.next[e] == latest_from(
                self.tail@,
                self.tail@[e],
                e,
            )
    }

    /// A graph with `vmax` vertices and no edges, with room for `emax_hint`
    /// edges.
    pub fn new(vmax: usize, emax_hint: usize) -> (graph: Self)
        ensures
            graph.wf(),
            graph.vertices() == vmax,
            graph@ == Seq::<(usize, usize)>::empty(),
    {
        let mut first: Vec<Option<usize>> = Vec::new();
        let mut i: usize = 0;
        while i < vmax
            invariant
                i <= vmax,
                first.len() == i,
                forall|k: int| 0 <= k < i ==> first[k] == None::<usize>,
            decreases vmax - i,
        {
            first.push(None);
            i += 1;
        }
        let graph = Self {
            first,
            next: Vec::with_capacity(emax_hint),
            endp: Vec::with_capacity(emax_hint),
            tail: Ghost(Seq::empty()),
        };
        assert(graph.edges() =~= Seq::<(usize, usize)>::empty());
        graph
    }

    /// The number of vertices.
    pub fn num_v(&self) -> (n: usize)
        ensures
            n == self.vertices(),
    {
        self.first.len()
    }

    /// The number of edges, an undirected edge counting twice.
    pub fn num_e(&self) -> (n: usize)
        ensures
            n == self@.len(),
    {
        self.endp.len()
    }

    /// The vertex that edge `e` points to.
    pub fn endp(&self, e: usize) -> (v: usize)
        requires
            e < self@.len(),
        ensures
            v == self@[e as int].1,
    {
        self.endp[e]
    }

    /// Adds an edge from `u` to `v`.
    pub fn add_edge(&mut self, u: usize, v: usize)
        requires
            old(self).wf(),
            u < old(self).vertices(),
        ensures
            final(self).wf(),
            final(self).vertices() == old(self).vertices(),
            final(self)@ == old(self)@.push((u, v)),
    {
        let ghost before = *self;
        let ghost tail = self.tail@;
        let ghost grown = tail.push(u);
        let n = self.num_e();
        self.next.push(self.first[u]);
        self.first.set(u, Some(n));
        self.endp.push(v);
        proof {
            self.tail@ = grown;
            assert(self.edges() =~= before.edges().push((u, v)));
            assert forall|w: int| 0 <= w < self.first.len() implies #[trigger] self.first[w]
                == latest_from(grown, w as usize, n + 1) by {
                lemma_prefix(tail, grown, before.edges(), self.edges(), w as usize, n as int);
            }
            assert forall|e: int| 0 <= e < self.next.len() implies #[trigger] self.next[e]
                == latest_from(grown, grown[e], e) by {
                lemma_prefix(tail, grown, before.edges(), self.edges(), grown[e], e);
            }
        }
    }

    /// Adds an edge from `u` to `v` and one from `v` to `u`. In a graph that
    /// was built this way alone, the reverse of edge `e` is edge `e ^ 1`.
    pub fn add_undirected_edge(&mut self, u: usize, v: usize)
        requires
            old(self).wf(),
            u < old(self).vertices(),
            v < old(self).vertices(),
        ensures
            final(self).wf(),
            final(self).vertices() == old(self).vertices(),
            final(self)@ == old(self)@.push((u, v)).push((v, u)),
    {
        self.add_edge(u, v);
        self.add_edge(v, u);
    }

    /// Adds the two implications of the clause `u || v`, where each even
    /// vertex stands for a variable and the odd vertex after it for its
    /// negation: from the negation of `u` to `v`, and from that of `v` to `u`.
    pub fn add_two_sat_clause(&mut self, u: usize, v: usize)
        requires
            old(self).wf(),
            (u ^ 1) < old(self).vertices(),
            (v ^ 1) < old(self).vertices(),
        ensures
            final(self).wf(),
            final(self).vertices() == old(self).vertices(),
            final(self)@ == old(self)@.push(((u ^ 1) as usize, v)).push(((v ^ 1) as usize, u)),
    {
        self.add_edge(u ^ 1, v);
        self.add_edge(v ^ 1, u);
    }

    /// The edges that start at `u`, the latest first.
    pub fn adj_list(&self, u: usize) -> (list: AdjListIterator<'_>)
        requires
            self.wf(),
            u < self.vertices(),
        ensures
            list.wf(),
            list.graph() == self,
            list.remaining() == out_edges(self@, u, self@.len() as int),
    {
        proof {
            lemma_latest(self.tail@, self.edges(), u, self.endp.len() as int);
        }
        AdjListIterator { graph: self, next_e: self.first[u] }
    }
}

/// A walk along the edges that start at one vertex.
pub struct AdjListIterator<'a> {
    graph: &'a Graph,
    next_e: Option<usize>,
}

impl<'a> AdjListIterator<'a> {
    /// The graph that the edges belong to.
    pub closed spec fn graph(&self) -> &Graph {
        self.graph
    }

    /// The walk stands at an edge of a well-formed graph, or at its end.
    pub closed spec fn wf(&self) -> bool {
        &&& self.graph.wf()
        &&& self.next_e matches Some(e) ==> e < self.graph.endp.len()
    }

    /// The edges that the walk has yet to meet, in its order, each as the
    /// pair of its number and the vertex it points to.
    pub closed spec fn remaining(&self) -> Seq<(usize, usize)> {
        match self.next_e {
            Some(e) => seq![(e, self.graph.endp[e as int])] + out_edges(
                self.graph.edges(),
                self.graph.tail@[e as int],
                e as int,
            ),
            None => Seq::empty(),
        }
    }

    /// The next edge and the vertex it points to; `None` at the end.
    pub fn next(&mut self) -> (item: Option<(usize, usize)>)
        requires
            old(self).wf(),
        ensures
            final(self).wf(),
            final(self).graph() == old(self).graph(),
            old(self).remaining().len() == 0 ==> item is None,
            old(self).remaining().len() == 0 ==> final(self).remaining() == old(self).remaining(),
            old(self).remaining().len() > 0 ==> item == Some(old(self).remaining()[0]),
            old(self).remaining().len() > 0 ==> final(self).remaining() == old(self).remaining().skip(
                1,
            ),
    {
        match self.next_e {
            Some(e) => {
                let v = self.graph.endp[e];
                proof {
                    lemma_latest(
                        self.graph.tail@,
                        self.graph.edges(),
                        self.graph.tail@[e as int],
                        e as int,
                    );
                    assert(old(self).remaining().skip(1) =~= out_edges(
                        self.graph.edges(),
                        self.graph.tail@[e as int],
                        e as int,
                    ));
                }
                self.next_e = self.graph.next[e];
                Some((e, v))
            },
            None => None,
        }
    }

    /// All edges that the walk has yet to meet, in its order.
    pub fn collect(self) -> (items: Vec<(usize, usize)>)
        requires
            self.wf(),
        ensures
            items@ == self.remaining(),
    {
        let mut walk = self;
        let mut items: Vec<(usize, usize)> = Vec::new();
        loop
            invariant
                walk.wf(),
                items@ + walk.remaining() == self.remaining(),
            ensures
                items@ == self.remaining(),
            decreases walk.remaining().len(),
        {
            let ghost before = walk.remaining();
            match walk.next() {
                Some(item) => {
                    items.push(item);
                    proof {
                        assert(items@ + walk.remaining() =~= self.remaining()) by {
                            assert(before =~= seq![before[0]] + before.skip(1));
                        }
                    }
                },
                None => {
                    proof {
                        assert(items@ + walk.remaining() =~= items@);
                    }
                    break ;
                },
            }
        }
        items
    }
}

} // verus!
