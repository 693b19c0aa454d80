//! The mathematical model of a graph: its nodes as a sequence, its edges as
//! a map from stored index pairs to payloads.
//!
//! A directed graph stores the edge from `a` to `b` under `(a, b)`. An
//! undirected graph stores the edge between `a` and `b` once, under the pair
//! that has the larger index first.

use vstd::prelude::*;
use crate::layout::{pair_at, shifted, slot};
use crate::layout::{lemma_pair_at_slot, lemma_slot_in_range, lemma_slot_pair_at};

verus! {

/// What a graph holds.
#[verifier::ext_equal]
pub struct GraphView<N, E> {
    /// The node payloads; a node's index is its position.
    pub nodes: Seq<N>,
    /// The edge payloads, each under the pair that it is stored at.
    pub edges: Map<(int, int), E>,
    /// Whether `(a, b)` and `(b, a)` are different edges.
    pub directed: bool,
}

impl<N, E> GraphView<N, E> {
    /// The graph without nodes.
    pub open spec fn empty(directed: bool) -> Self {
        GraphView { nodes: Seq::empty(), edges: Map::empty(), directed }
    }

    /// Number of nodes.
    pub open spec fn node_count(self) -> nat {
        self.nodes.len()
    }

    /// Whether `i` is the index of a node.
    pub open spec fn has_node(self, i: int) -> bool {
        0 <= i < self.nodes.len()
    }

    /// The pair under which the edge from `a` to `b` is stored.
    pub open spec fn key(self, a: int, b: int) -> (int, int) {
        if !self.directed && a < b {
            (b, a)
        } else {
            (a, b)
        }
    }

    /// Every edge joins two nodes of the graph, and an undirected graph
    /// stores each edge under the pair that has the larger index first.
    pub open spec fn wf(self) -> bool {
        forall|k: (int, int)| #[trigger]
            self.edges.contains_key(k) ==> {
                &&& self.has_node(k.0)
                &&& self.has_node(k.1)
                &&& (!self.directed ==> k.0 >= k.1)
            }
    }

    /// The payload of node `i`, if there is such a node.
    pub open spec fn node(self, i: int) -> Option<N> {
        if self.has_node(i) {
            Some(self.nodes[i])
        } else {
            None
        }
    }

    /// The payload of the edge from `a` to `b`, if both are nodes and there
    /// is such an edge.
    pub open spec fn edge(self, a: int, b: int) -> Option<E> {
        if self.has_node(a) && self.has_node(b) && self.edges.contains_key(self.key(a, b)) {
            Some(self.edges[self.key(a, b)])
        } else {
            None
        }
    }

    /// Number of edges.
    pub open spec fn edge_count(self) -> nat {
        self.edges.dom().len()
    }

    /// The graph with one more node, which gets the next free index.
    pub open spec fn add_node(self, value: N) -> Self {
        GraphView { nodes: self.nodes.push(value), ..self }
    }

    /// The graph with the payload of node `i` replaced.
    pub open spec fn set_node(self, i: int, value: N) -> Self {
        GraphView { nodes: self.nodes.update(i, value), ..self }
    }

    /// The graph without node `i` and without the edges at it. The nodes
    /// above `i` move down by one index and take their edges with them.
    pub open spec fn remove_node(self, i: int) -> Self {
        GraphView {
            nodes: self.nodes.remove(i),
            edges: Map::new(
                |k: (int, int)|
                    0 <= k.0 < self.nodes.len() - 1 && 0 <= k.1 < self.nodes.len() - 1
                        && self.edges.contains_key((shifted(k.0, i), shifted(k.1, i))),
                |k: (int, int)| self.edges[(shifted(k.0, i), shifted(k.1, i))],
            ),
            directed: self.directed,
        }
    }

    /// The graph with the edge from `a` to `b` set to `value`.
    pub open spec fn set_edge(self, a: int, b: int, value: E) -> Self {
        GraphView { edges: self.edges.insert(self.key(a, b), value), ..self }
    }

    /// The graph without the edge from `a` to `b`.
    pub open spec fn remove_edge(self, a: int, b: int) -> Self {
        GraphView { edges: self.edges.remove(self.key(a, b)), ..self }
    }

    /// The nodes from index `i` on, each with its index.
    pub open spec fn nodes_from(self, i: int) -> Seq<(int, N)> {
        Seq::new((self.nodes.len() - i) as nat, |j: int| (i + j, self.nodes[i + j]))
    }

    /// All nodes in index order, each with its index.
    pub open spec fn node_list(self) -> Seq<(int, N)> {
        self.nodes_from(0)
    }

    /// Whether `node` is one of the two ends of the stored pair `k`. With
    /// `None` for `node`, every pair passes.
    pub open spec fn at_node(node: Option<int>, k: (int, int)) -> bool {
        match node {
            None => true,
            Some(i) => k.0 == i || k.1 == i,
        }
    }

    /// The edges whose cell sits at storage position `i` or behind it and
    /// whose stored pair passes `at_node(node, ..)`, in storage order, each
    /// as the pair it is stored at and its payload.
    pub open spec fn listed_from(self, node: Option<int>, i: int) -> Seq<(int, int, E)>
        decreases self.nodes.len() * self.nodes.len() - i,
    {
        if 0 <= i < self.nodes.len() * self.nodes.len() {
            let k = pair_at(i);
            if self.edges.contains_key(k) && Self::at_node(node, k) {
                seq![(k.0, k.1, self.edges[k])] + self.listed_from(node, i + 1)
            } else {
                self.listed_from(node, i + 1)
            }
        } else {
            Seq::empty()
        }
    }

    /// The edges whose cell sits at storage position `i` or behind it, in
    /// storage order.
    pub open spec fn edges_from(self, i: int) -> Seq<(int, int, E)> {
        self.listed_from(None, i)
    }

    /// All edges in storage order.
    pub open spec fn edge_list(self) -> Seq<(int, int, E)> {
        self.edges_from(0)
    }

    /// Those of `edges_from(i)` that are stored at a pair which names `node`.
    pub open spec fn incident_from(self, node: int, i: int) -> Seq<(int, int, E)> {
        self.listed_from(Some(node), i)
    }

    /// The edges at `node` in storage order.
    pub open spec fn incident_list(self, node: int) -> Seq<(int, int, E)> {
        self.incident_from(node, 0)
    }

    /// The stored edges whose cell sits at storage position `i` or behind it.
    pub open spec fn keys_from(self, i: int) -> Set<(int, int)> {
        Set::new(|k: (int, int)| self.edges.contains_key(k) && slot(k.0, k.1) >= i)
    }

    /// A well-formed graph has finitely many edges, and the edges behind any
    /// storage position are as many as `edges_from` lists.
    pub proof fn lemma_edges_from_len(self, i: int)
        requires
            self.wf(),
            0 <= i,
        ensures
            self.keys_from(i).finite(),
            self.edges_from(i).len() == self.keys_from(i).len(),
        decreases self.nodes.len() * self.nodes.len() - i,
    {
        let n = self.nodes.len() as int;
        if i < n * n {
            self.lemma_edges_from_len(i + 1);
            lemma_slot_pair_at(i, n);
            let k = pair_at(i);
            let rest = self.keys_from(i + 1);
            assert forall|j: (int, int)| self.keys_from(i).contains(j) implies j == k
                || rest.contains(j) by {
                if slot(j.0, j.1) == i {
                    lemma_pair_at_slot(j.0, j.1);
                }
            }
            if self.edges.contains_key(k) {
                assert(self.keys_from(i) =~= rest.insert(k));
            } else {
                assert(self.keys_from(i) =~= rest);
            }
        } else {
            assert forall|j: (int, int)| !self.keys_from(i).contains(j) by {
                if self.edges.contains_key(j) {
                    lemma_slot_in_range(j.0, j.1, n);
                }
            }
            assert(self.keys_from(i) =~= Set::empty());
        }
    }

    /// A well-formed graph has finitely many edges, and `edge_list` lists as
    /// many as `edge_count` says.
    pub proof fn lemma_edge_list_len(self)
        requires
            self.wf(),
        ensures
            self.edges.dom().finite(),
            self.edge_list().len() == self.edge_count(),
    {
        self.lemma_edges_from_len(0);
        assert forall|k: (int, int)| self.edges.contains_key(k) implies self.keys_from(
            0,
        ).contains(k) by {
            lemma_slot_in_range(k.0, k.1, self.nodes.len() as int);
        }
        assert(self.keys_from(0) =~= self.edges.dom());
    }

    /// The graph without nodes is well-formed and has no edges.
    pub proof fn lemma_empty_wf(directed: bool)
        ensures
            Self::empty(directed).wf(),
            Self::empty(directed).node_count() == 0,
            Self::empty(directed).edge_count() == 0,
    {
    }

    /// Adding a node keeps the graph well-formed and all edges as they are.
    pub proof fn lemma_add_node_wf(self, value: N)
        requires
            self.wf(),
        ensures
            self.add_node(value).wf(),
    {
    }

    /// Replacing a node's payload keeps the graph well-formed.
    pub proof fn lemma_set_node_wf(self, i: int, value: N)
        requires
            self.wf(),
            self.has_node(i),
        ensures
            self.set_node(i, value).wf(),
    {
    }

    /// Removing a node keeps the graph well-formed.
    pub proof fn lemma_remove_node_wf(self, i: int)
        requires
            self.wf(),
            self.has_node(i),
        ensures
            self.remove_node(i).wf(),
    {
    }

    /// Setting an edge between two nodes keeps the graph well-formed.
    pub proof fn lemma_set_edge_wf(self, a: int, b: int, value: E)
        requires
            self.wf(),
            self.has_node(a),
            self.has_node(b),
        ensures
            self.set_edge(a, b, value).wf(),
    {
    }

    /// Removing an edge keeps the graph well-formed.
    pub proof fn lemma_remove_edge_wf(self, a: int, b: int)
        requires
            self.wf(),
        ensures
            self.remove_edge(a, b).wf(),
    {
    }
}

} // verus!
