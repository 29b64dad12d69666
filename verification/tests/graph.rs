use contest_lib::graph::disjoint_sets::DisjointSets;
use contest_lib::graph::Graph;

#[test]
#[allow(clippy::bool_assert_comparison)]
fn test_disjoint_sets() {
    {
        let mut dsets = DisjointSets::new(1);
        dsets.merge(0, 0);
        dsets.merge(0, 0);
        dsets.merge(0, 0);
        assert_eq!(dsets.same(0, 0), true);
    }
    {
        const SIZE: usize = 10;
        let mut dsets = DisjointSets::new(SIZE);
        // Make fully connected
        dsets.merge(0, 1);
        dsets.merge(2, 3);
        dsets.merge(8, 9);
        dsets.merge(5, 6);
        dsets.merge(3, 4);
        dsets.merge(7, 8);
        dsets.merge(4, 5);
        dsets.merge(1, 2);
        dsets.merge(6, 7);
        for u in 0..SIZE {
            for v in 0..SIZE {
                assert_eq!(dsets.same(u, v), true);
            }
        }
    }
    {
        const SIZE: usize = 10;
        let mut dsets = DisjointSets::new(SIZE);
        dsets.merge(0, 1);
        dsets.merge(2, 3);
        dsets.merge(4, 9);
        dsets.merge(2, 9);
        dsets.merge(5, 1);
        assert_eq!(dsets.same(0, 1), true);
        assert_eq!(dsets.same(1, 5), true);
        assert_eq!(dsets.same(0, 5), true);
        assert_eq!(dsets.same(2, 3), true);
        assert_eq!(dsets.same(2, 9), true);
        assert_eq!(dsets.same(3, 9), true);
        assert_eq!(dsets.same(3, 9), true);
        assert_eq!(dsets.same(4, 9), true);
        assert_eq!(dsets.same(4, 9), true);
        assert_eq!(dsets.same(4, 2), true);
        assert_eq!(dsets.same(4, 3), true);
        assert_eq!(dsets.same(0, 4), false);
        assert_eq!(dsets.same(0, 2), false);
        assert_eq!(dsets.same(0, 9), false);
        assert_eq!(dsets.same(1, 4), false);
        for u in 6..=8 {
            for v in (0..SIZE).filter(|&v| u != v) {
                assert_eq!(dsets.same(u, v), false);
            }
        }
    }
}

#[test]
fn test_adj_list() {
    let mut graph = Graph::new(5, 6);
    graph.add_edge(2, 3);
    graph.add_edge(2, 4);
    graph.add_edge(4, 1);
    graph.add_edge(1, 2);
    graph.add_undirected_edge(0, 2);

    let adj = graph.adj_list(2).collect();

    assert_eq!(adj, vec![(5, 0), (1, 4), (0, 3)]);
    for (e, v) in adj {
        assert_eq!(v, graph.endp(e));
    }
}

#[test]
fn merge_tells_whether_the_sets_were_apart_and_the_second_leader_leads() {
    let mut dsets = DisjointSets::new(6);
    for u in 0..6 {
        assert_eq!(dsets.leader(u), u);
    }
    assert!(dsets.merge(0, 1));
    assert_eq!(dsets.leader(0), 1);
    assert!(!dsets.merge(1, 0));
    assert!(dsets.merge(2, 3));
    assert!(dsets.merge(1, 3));
    for u in 0..4 {
        assert_eq!(dsets.leader(u), 3);
    }
    assert_eq!(dsets.leader(4), 4);
    assert!(!dsets.same(4, 5));
    assert!(!dsets.merge(0, 2));
}

#[test]
fn graph_counts_and_walks() {
    let mut graph = Graph::new(4, 0);
    assert_eq!(graph.num_v(), 4);
    assert_eq!(graph.num_e(), 0);
    assert_eq!(graph.adj_list(0).collect(), vec![]);
    graph.add_two_sat_clause(0, 3);
    // not 0 -> 3 and not 3 -> 0, where the negation of x is x ^ 1
    assert_eq!(graph.num_e(), 2);
    assert_eq!(graph.adj_list(1).collect(), vec![(0, 3)]);
    assert_eq!(graph.adj_list(2).collect(), vec![(1, 0)]);
    graph.add_edge(1, 1);
    graph.add_edge(1, 3);
    let mut walk = graph.adj_list(1);
    assert_eq!(walk.next(), Some((3, 3)));
    assert_eq!(walk.next(), Some((2, 1)));
    assert_eq!(walk.collect(), vec![(0, 3)]);
    assert_eq!(graph.endp(2), 1);
    let none = Graph::new(0, 3);
    assert_eq!(none.num_v(), 0);
}
