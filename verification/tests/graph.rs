use graph::{AdjEdgeIterator, EdgeIterator, EdgeRef, Graph, MatrixCell, NodeIterator, NodeRef, Void};

fn node_refs<'a, N, E>(mut it: NodeIterator<'a, N, E>) -> Vec<NodeRef<'a, N, E>> {
    let mut out = Vec::new();
    while let Some(item) = it.next() {
        out.push(item);
    }
    out
}

fn edge_refs<'a, N, E>(mut it: EdgeIterator<'a, N, E>) -> Vec<EdgeRef<'a, N, E>> {
    let mut out = Vec::new();
    while let Some(item) = it.next() {
        out.push(item);
    }
    out
}

fn adj_edge_refs<'a, N, E>(mut it: AdjEdgeIterator<'a, N, E>) -> Vec<EdgeRef<'a, N, E>> {
    let mut out = Vec::new();
    while let Some(item) = it.next() {
        out.push(item);
    }
    out
}

/// Each edge as the indices of its two ends and its payload.
fn triples<N, E: Clone>(edges: &[EdgeRef<N, E>]) -> Vec<(usize, usize, E)> {
    edges.iter().map(|e| (e.a().index(), e.b().index(), e.value().clone())).collect()
}

fn directed_test_graph() -> Graph<String, String> {
    let mut g = Graph::<String, String>::new_directed();
    g.add_node("A".to_owned());
    g.add_node("B".to_owned());
    g.add_node("C".to_owned());

    g.set_edge(0, 1, "AB".to_owned());
    g.set_edge(1, 0, "BA".to_owned());
    g.set_edge(0, 2, "AC".to_owned());

    g
}

fn undirected_test_graph() -> Graph<String, String> {
    let mut g = Graph::<String, String>::new_undirected();
    g.add_node("A".to_owned());
    g.add_node("B".to_owned());
    g.add_node("C".to_owned());

    g.set_edge(0, 1, "AB".to_owned());
    g.set_edge(0, 2, "AC".to_owned());

    g
}

fn test_set() -> Graph<String, String> {
    let mut g = Graph::<String, String>::new();
    g.add_node("A".to_owned());
    g.add_node("B".to_owned());
    g.add_node("C".to_owned());

    g.set_edge(0, 1, "AB".to_owned());
    g.set_edge(1, 0, "BA".to_owned());
    g.set_edge(0, 2, "AC".to_owned());

    g
}

#[test]
fn graph_can_create() {
    let a = Graph::<u8, u8>::new_directed();
    assert_eq!(a.node_count(), 0);
    assert_eq!(a.edge_count(), 0);

    let b = Graph::<u8, u8>::new_undirected();
    assert_eq!(b.node_count(), 0);
    assert_eq!(b.edge_count(), 0);

    let g = Graph::<u8, u8>::new();
    assert_eq!(g.node_count(), 0);
    assert_eq!(g.edge_count(), 0);
}

#[test]
fn can_count_edges() {
    let a = directed_test_graph();
    assert_eq!(a.edge_count(), 3);

    let b = undirected_test_graph();
    assert_eq!(b.edge_count(), 2);
}

#[test]
fn can_count_nodes() {
    let a = directed_test_graph();
    assert_eq!(a.node_count(), 3);

    let b = undirected_test_graph();
    assert_eq!(b.node_count(), 3);
}

#[test]
fn graph_can_get_added_node() {
    for g in [directed_test_graph(), test_set()] {
        let a = g.node(0).unwrap();
        let b = g.node(1).unwrap();
        let c = g.node(2).unwrap();

        assert_eq!(a.value(), "A");
        assert_eq!(b.value(), "B");
        assert_eq!(c.value(), "C");
    }
}

#[test]
fn graph_can_get_added_edge() {
    for a in [directed_test_graph(), test_set()] {
        assert_eq!(a.edge(0, 1).unwrap().value(), &"AB");
        assert_eq!(a.edge(1, 0).unwrap().value(), &"BA");
        assert_eq!(a.edge(0, 2).unwrap().value(), &"AC");
        assert_eq!(a.edge(2, 0), None);
        assert_eq!(a.edge(1, 2), None);
        assert_eq!(a.edge(2, 1), None);
    }

    let b = undirected_test_graph();
    assert_eq!(b.edge(0, 1).unwrap().value(), &"AB");
    assert_eq!(b.edge(1, 0).unwrap().value(), &"AB");
    assert_eq!(b.edge(0, 2).unwrap().value(), &"AC");
    assert_eq!(b.edge(2, 0).unwrap().value(), &"AC");
    assert_eq!(b.edge(1, 2), None);
    assert_eq!(b.edge(2, 1), None);
}

#[test]
fn graph_can_remove_added_node() {
    for mut g in [directed_test_graph(), test_set()] {
        g.remove_node(1);
        assert_eq!(g.node(0).unwrap().value(), &"A");
        assert_eq!(g.node(1).unwrap().value(), &"C");
        assert_eq!(g.node(2), None);

        assert_eq!(g.edge(0, 1).unwrap().value(), &"AC");
        assert_eq!(g.edge(1, 0), None);
        assert_eq!(g.edge(0, 2), None);
    }
}

#[test]
fn graph_can_remove_added_edge() {
    for mut g in [directed_test_graph(), test_set()] {
        g.remove_edge(0, 1);
        g.remove_edge(1, 0);
        g.remove_edge(0, 2);
        assert_eq!(g.edge(0, 1), None);
        assert_eq!(g.edge(1, 0), None);
        assert_eq!(g.edge(0, 2), None);
    }

    let mut g = undirected_test_graph();
    g.remove_edge(0, 1);
    g.remove_edge(0, 2);
    assert_eq!(g.edge(0, 1), None);
    assert_eq!(g.edge(1, 0), None);
    assert_eq!(g.edge(0, 2), None);
}

#[test]
fn graph_can_iter_over_nodes() {
    let g = directed_test_graph();
    let test = vec!["A", "B", "C"];

    assert_eq!(node_refs(g.nodes()).len(), 3);

    let nodes = node_refs(g.nodes());
    for (a, (i, &b)) in nodes.iter().zip(test.iter().enumerate()) {
        assert_eq!(a.value(), b);
        assert_eq!(a.index(), i);
    }

    let g = test_set();

    assert_eq!(node_refs(g.iter_nodes()).len(), 3);

    let nodes = node_refs(g.iter_nodes());
    for (a, (i, &b)) in nodes.iter().zip(test.iter().enumerate()) {
        assert_eq!(a.value(), b);
        assert_eq!(a.index(), i);
    }
}

#[test]
fn graph_can_iter_over_edges() {
    let g = directed_test_graph();
    let test = vec!["BA", "AB", "AC"];

    assert_eq!(edge_refs(g.edges()).len(), 3);

    let edges = edge_refs(g.edges());
    for (a, &b) in edges.iter().zip(test.iter()) {
        assert_eq!(a.value(), b);
    }

    let g = test_set();

    assert_eq!(edge_refs(g.iter_edges()).len(), 3);

    let edges = edge_refs(g.iter_edges());
    for (a, &b) in edges.iter().zip(test.iter()) {
        assert_eq!(a.value(), b);
    }
}

#[test]
fn graph_can_iter_over_adj_edges() {
    for g in [directed_test_graph(), test_set()] {
        let node = g.node(1).unwrap();
        let mut iter = node.iter_edges();

        assert_eq!(iter.next().unwrap().value(), "BA");
        assert_eq!(iter.next().unwrap().value(), "AB");
        assert_eq!(iter.next(), None);
    }

    {
        let g = undirected_test_graph();
        let node = g.node(1).unwrap();
        let mut iter = node.iter_edges();

        assert_eq!(iter.next().unwrap().value(), "AB");
        assert_eq!(iter.next(), None);
    }
}

#[test]
fn with_capacity_is_an_empty_directed_graph() {
    let mut g = Graph::<u8, u8>::with_capacity(4, 16);
    assert_eq!(g.node_count(), 0);
    assert_eq!(g.edge_count(), 0);
    g.add_node(1);
    g.add_node(2);
    g.set_edge(0, 1, 7);
    assert_eq!(g.edge(0, 1).unwrap().value(), &7);
    assert_eq!(g.edge(1, 0), None);
}

#[test]
fn add_node_returns_the_next_index() {
    let mut g = Graph::<u8, u8>::new_undirected();
    for i in 0..10usize {
        assert_eq!(g.add_node(i as u8), i);
        assert_eq!(g.node_count(), i + 1);
    }
}

#[test]
fn node_count_follows_appends_and_removals() {
    let mut g = Graph::<u32, u8>::new_directed();
    let mut expected = 0usize;
    for round in 0..5u32 {
        for i in 0..4u32 {
            g.add_node(10 * round + i);
            expected += 1;
            assert_eq!(g.node_count(), expected);
        }
        g.remove_node(round as usize);
        expected -= 1;
        assert_eq!(g.node_count(), expected);
        for i in 0..expected {
            assert!(g.node(i).is_some());
            assert_eq!(g.node(i).unwrap().index(), i);
        }
        assert_eq!(g.node(expected), None);
        assert_eq!(g.node(expected + 1), None);
    }
    assert_eq!(g.node_count(), 15);
}

#[test]
fn set_node_replaces_the_payload() {
    let mut g = directed_test_graph();
    g.set_node(1, "X".to_owned());
    assert_eq!(g.node(0).unwrap().value(), "A");
    assert_eq!(g.node(1).unwrap().value(), "X");
    assert_eq!(g.node(2).unwrap().value(), "C");
    assert_eq!(g.node_count(), 3);
    assert_eq!(g.edge_count(), 3);
}

#[test]
fn node_mut_gives_the_payload_for_writing() {
    let mut g = test_set();
    *g.node_mut(2).unwrap() = "Z".to_owned();
    assert_eq!(g.node(2).unwrap().value(), "Z");
    assert_eq!(g.node(0).unwrap().value(), "A");
    assert_eq!(g.node_mut(3), None);
    assert_eq!(g.edge_count(), 3);
}

#[test]
fn node_and_edge_out_of_range_are_none() {
    let a = directed_test_graph();
    assert_eq!(a.node(3), None);
    assert_eq!(a.node(usize::MAX), None);
    assert_eq!(a.edge(0, 3), None);
    assert_eq!(a.edge(3, 0), None);
    assert_eq!(a.edge(7, 9), None);

    let b = undirected_test_graph();
    assert_eq!(b.edge(0, 3), None);
    assert_eq!(b.edge(3, 0), None);

    let empty = Graph::<u8, u8>::new_undirected();
    assert_eq!(empty.node(0), None);
    assert_eq!(empty.edge(0, 0), None);
}

#[test]
fn undirected_edges_do_not_depend_on_the_order() {
    let mut g = Graph::<u8, u32>::new_undirected();
    for i in 0..5 {
        g.add_node(i);
    }
    g.set_edge(1, 3, 13);
    g.set_edge(4, 2, 42);
    g.set_edge(0, 4, 4);
    for p in 0..5 {
        for q in 0..5 {
            let forth = g.edge(p, q).map(|e| *e.value());
            let back = g.edge(q, p).map(|e| *e.value());
            assert_eq!(forth, back);
        }
    }
    assert_eq!(g.edge(3, 1).map(|e| *e.value()), Some(13));
    assert_eq!(g.edge(2, 4).map(|e| *e.value()), Some(42));
    assert_eq!(g.edge_count(), 3);

    g.set_edge(3, 1, 31);
    assert_eq!(g.edge(1, 3).map(|e| *e.value()), Some(31));
    assert_eq!(g.edge_count(), 3);

    g.remove_edge(2, 4);
    assert_eq!(g.edge(4, 2), None);
    assert_eq!(g.edge_count(), 2);
}

#[test]
fn directed_edges_are_independent() {
    let mut g = Graph::<u8, u32>::new_directed();
    for i in 0..4 {
        g.add_node(i);
    }
    for p in 0..4usize {
        for q in 0..4usize {
            if p != q {
                g.set_edge(p, q, (10 * p + q) as u32);
                g.set_edge(q, p, (10 * q + p) as u32);
                assert_eq!(g.edge(p, q).map(|e| *e.value()), Some((10 * p + q) as u32));
                assert_eq!(g.edge(q, p).map(|e| *e.value()), Some((10 * q + p) as u32));
            }
        }
    }
    g.remove_edge(2, 3);
    assert_eq!(g.edge(2, 3), None);
    assert_eq!(g.edge(3, 2).map(|e| *e.value()), Some(32));
}

#[test]
fn self_loops_are_edges() {
    let mut g = Graph::<u8, u8>::new_undirected();
    g.add_node(0);
    g.add_node(1);
    g.set_edge(1, 1, 11);
    assert_eq!(g.edge(1, 1).map(|e| *e.value()), Some(11));
    assert_eq!(g.edge(0, 0), None);
    assert_eq!(g.edge_count(), 1);
    let node = g.node(1).unwrap();
    assert_eq!(triples(&adj_edge_refs(node.iter_edges())), vec![(1, 1, 11)]);
}

#[test]
fn edge_count_follows_sets_and_removals() {
    let mut g = Graph::<u8, u8>::new_directed();
    for i in 0..4 {
        g.add_node(i);
    }
    let pairs = [(0, 1), (1, 0), (2, 2), (3, 0), (1, 3), (0, 3)];
    for (k, (a, b)) in pairs.iter().enumerate() {
        g.set_edge(*a, *b, k as u8);
        assert_eq!(g.edge_count(), k + 1);
    }
    g.set_edge(2, 2, 100);
    assert_eq!(g.edge_count(), 6);

    g.remove_edge(3, 0);
    assert_eq!(g.edge_count(), 5);
    g.remove_edge(3, 0);
    assert_eq!(g.edge_count(), 5);
    g.remove_edge(3, 1);
    assert_eq!(g.edge_count(), 5);
}

#[test]
fn set_edge_round_trip() {
    for directed in [true, false] {
        let mut g = if directed {
            Graph::<u8, usize>::new_directed()
        } else {
            Graph::<u8, usize>::new_undirected()
        };
        for i in 0..5 {
            g.add_node(i);
        }
        for a in 0..5usize {
            for b in 0..5usize {
                g.set_edge(a, b, 100 * a + b);
                assert_eq!(g.edge(a, b).map(|e| *e.value()), Some(100 * a + b));
            }
        }
    }
}

#[test]
fn remove_node_takes_its_edges_along() {
    let mut g = Graph::<char, u8>::new_directed();
    for c in ['a', 'b', 'c', 'd'] {
        g.add_node(c);
    }
    g.set_edge(0, 3, 3);
    g.set_edge(3, 0, 30);
    g.set_edge(1, 2, 12);
    g.set_edge(1, 3, 13);
    g.set_edge(2, 3, 23);
    g.set_edge(3, 3, 33);
    g.remove_node(1);

    assert_eq!(g.node_count(), 3);
    assert_eq!(g.node(0).unwrap().value(), &'a');
    assert_eq!(g.node(1).unwrap().value(), &'c');
    assert_eq!(g.node(2).unwrap().value(), &'d');
    assert_eq!(g.edge_count(), 4);
    assert_eq!(
        triples(&edge_refs(g.edges())),
        vec![(2, 0, 30), (0, 2, 3), (1, 2, 23), (2, 2, 33)]
    );
}

#[test]
fn remove_node_in_an_undirected_graph() {
    let mut g = Graph::<char, u8>::new_undirected();
    for c in ['a', 'b', 'c', 'd'] {
        g.add_node(c);
    }
    g.set_edge(0, 3, 3);
    g.set_edge(1, 2, 12);
    g.set_edge(2, 3, 23);
    g.remove_node(0);

    assert_eq!(g.node_count(), 3);
    assert_eq!(g.edge_count(), 2);
    assert_eq!(g.edge(0, 1).map(|e| *e.value()), Some(12));
    assert_eq!(g.edge(1, 0).map(|e| *e.value()), Some(12));
    assert_eq!(g.edge(2, 1).map(|e| *e.value()), Some(23));
    assert_eq!(g.edge(0, 2), None);
}

#[test]
fn add_node_after_remove_node_starts_without_edges() {
    let mut g = directed_test_graph();
    g.remove_node(0);
    assert_eq!(g.edge_count(), 0);
    assert_eq!(g.add_node("D".to_owned()), 2);
    assert_eq!(g.edge_count(), 0);
    g.set_edge(2, 0, "DB".to_owned());
    assert_eq!(g.edge(2, 0).unwrap().value(), "DB");
    assert_eq!(triples(&edge_refs(g.edges())), vec![(2, 0, "DB".to_owned())]);
}

#[test]
fn edges_come_in_storage_order() {
    let g = directed_test_graph();
    assert_eq!(
        triples(&edge_refs(g.edges())),
        vec![(1, 0, "BA".to_owned()), (0, 1, "AB".to_owned()), (0, 2, "AC".to_owned())]
    );

    let g = undirected_test_graph();
    assert_eq!(
        triples(&edge_refs(g.edges())),
        vec![(1, 0, "AB".to_owned()), (2, 0, "AC".to_owned())]
    );
}

#[test]
fn undirected_edge_is_listed_once_at_each_end() {
    let g = undirected_test_graph();
    let all = triples(&edge_refs(g.edges()));
    assert_eq!(all.iter().filter(|e| e.2 == "AB").count(), 1);

    let at_a = g.node(0).unwrap();
    assert_eq!(
        triples(&adj_edge_refs(at_a.iter_edges())),
        vec![(1, 0, "AB".to_owned()), (2, 0, "AC".to_owned())]
    );
    let at_b = g.node(1).unwrap();
    assert_eq!(triples(&adj_edge_refs(at_b.iter_edges())), vec![(1, 0, "AB".to_owned())]);
    let at_c = g.node(2).unwrap();
    assert_eq!(triples(&adj_edge_refs(at_c.iter_edges())), vec![(2, 0, "AC".to_owned())]);
}

#[test]
fn edge_ends_are_the_stored_pair() {
    let g = directed_test_graph();
    let e = g.edge(0, 2).unwrap();
    assert_eq!(e.a().index(), 0);
    assert_eq!(e.a().value(), "A");
    assert_eq!(e.b().index(), 2);
    assert_eq!(e.b().value(), "C");

    let g = undirected_test_graph();
    let e = g.edge(0, 2).unwrap();
    assert_eq!(e.a().index(), 2);
    assert_eq!(e.b().index(), 0);
}

#[test]
fn walks_end_and_stay_ended() {
    let g = directed_test_graph();
    let mut nodes = g.nodes();
    for _ in 0..3 {
        assert!(nodes.next().is_some());
    }
    assert_eq!(nodes.next(), None);
    assert_eq!(nodes.next(), None);

    let mut edges = g.edges();
    for _ in 0..3 {
        assert!(edges.next().is_some());
    }
    assert_eq!(edges.next(), None);
    assert_eq!(edges.next(), None);

    let empty = Graph::<u8, u8>::new_directed();
    assert_eq!(empty.nodes().next(), None);
    assert_eq!(empty.edges().next(), None);
}

#[test]
fn adjacent_edge_walk_can_be_made_from_a_graph_and_a_node() {
    let g = directed_test_graph();
    let node = g.node(0).unwrap();
    let it = AdjEdgeIterator::new(&g, &node);
    assert_eq!(
        triples(&adj_edge_refs(it)),
        vec![(1, 0, "BA".to_owned()), (0, 1, "AB".to_owned()), (0, 2, "AC".to_owned())]
    );
    let node = g.node(2).unwrap();
    assert_eq!(triples(&adj_edge_refs(node.iter_edges())), vec![(0, 2, "AC".to_owned())]);
}

#[test]
fn cells_tell_edges_from_empty() {
    let empty = MatrixCell::<u8>::default();
    assert!(empty.is_empty());
    assert!(!empty.is_edge());
    assert_eq!(empty, MatrixCell::Empty);

    let edge = MatrixCell::Edge(5u8);
    assert!(edge.is_edge());
    assert!(!edge.is_empty());
    assert_eq!(edge.unwrap_ref(), &5);
    assert_eq!(edge.unwrap(), 5);
}

#[test]
fn void_payloads() {
    let mut g = Graph::<Void, Void>::new_undirected();
    g.add_node(Void::default());
    g.add_node(Void);
    g.set_edge(0, 1, Void);
    assert_eq!(g.node_count(), 2);
    assert_eq!(g.edge_count(), 1);
    assert!(g.edge(1, 0).is_some());
}
