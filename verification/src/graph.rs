//! The graph container and the borrowed handles into it.

use vstd::prelude::*;
use crate::cell::MatrixCell;
use crate::layout::{pair_at, slot};
use crate::layout::{lemma_pair_at_slot, lemma_slot_in_range, lemma_slot_injective,
    lemma_slot_pair_at};
use crate::matrix::{AdjacencyMatrix, AdjacencyMatrixIterator, is_default};
use crate::model::GraphView;

verus! {

/// A graph with node payloads of type `N` and edge payloads of type `E`.
/// Nodes are known by their index, `0 .. node_count()`; an edge is known by
/// the indices of its two ends.
#[derive(Debug, Clone, PartialEq)]
pub struct Graph<N, E> {
    edges: AdjacencyMatrix<MatrixCell<E>>,
    nodes: Vec<N>,
    directed: bool,
}

impl<N, E> View for Graph<N, E> {
    type V = GraphView<N, E>;

    closed spec fn view(&self) -> GraphView<N, E> {
        GraphView {
            nodes: self.nodes@,
            edges: Map::new(
                |k: (int, int)|
                    0 <= k.0 < self.nodes@.len() && 0 <= k.1 < self.nodes@.len()
                        && self.edges.cell(k.0, k.1) is Edge,
                |k: (int, int)| self.edges.cell(k.0, k.1)->Edge_0,
            ),
            directed: self.directed,
        }
    }
}

impl<N, E> Graph<N, E> {
    /// The matrix has a band for each node, and an undirected graph keeps
    /// its edges in the cells of the pairs that have the larger index first.
    pub closed spec fn wf(&self) -> bool {
        &&& self.edges.wf()
        &&& self.edges.spec_size() == self.nodes@.len()
        &&& !self.directed ==> forall|a: int, b: int|
            0 <= a < b < self.nodes@.len() ==> #[trigger] self.edges.cell(a, b) is Empty
    }

    /// A well-formed graph has a well-formed view.
    pub proof fn lemma_view_wf(&self)
        requires
            self.wf(),
        ensures
            self@.wf(),
    {
    }

    /// An empty graph in which `(a, b)` and `(b, a)` are different edges.
    pub fn new_directed() -> (g: Self)
        ensures
            g.wf(),
            g@ == GraphView::<N, E>::empty(true),
    {
        let g = Self { edges: AdjacencyMatrix::new(), nodes: Vec::new(), directed: true };
        proof {
            assert(g@.edges =~= Map::empty());
        }
        g
    }

    /// An empty graph in which `(a, b)` and `(b, a)` are the same edge.
    pub fn new_undirected() -> (g: Self)
        ensures
            g.wf(),
            g@ == GraphView::<N, E>::empty(false),
    {
        let g = Self { edges: AdjacencyMatrix::new(), nodes: Vec::new(), directed: false };
        proof {
            assert(g@.edges =~= Map::empty());
        }
        g
    }

    /// An empty directed graph.
    pub fn new() -> (g: Self)
        ensures
            g.wf(),
            g@ == GraphView::<N, E>::empty(true),
    {
        Self::new_directed()
    }

    /// An empty directed graph with room for `nodes` nodes and `edges`
    /// matrix cells.
    pub fn with_capacity(nodes: usize, edges: usize) -> (g: Self)
        ensures
            g.wf(),
            g@ == GraphView::<N, E>::empty(true),
    {
        let g = Self {
            edges: AdjacencyMatrix::with_capacity(edges),
            nodes: Vec::with_capacity(nodes),
            directed: true,
        };
        proof {
            assert(g@.edges =~= Map::empty());
        }
        g
    }

    /// Number of nodes.
    pub fn node_count(&self) -> (count: usize)
        ensures
            count == self@.node_count(),
    {
        self.nodes.len()
    }

    /// Number of edges, counted by a walk over all matrix cells.
    pub fn edge_count(&self) -> (count: usize)
        requires
            self.wf(),
        ensures
            count == self@.edge_count(),
    {
        let mut count: usize = 0;
        let mut cells = self.edges.iter();
        loop
            invariant
                self.wf(),
                cells.wf(),
                cells.matrix() == self.edges,
                count + self@.edges_from(cells.position() as int).len() == self@.edge_list().len(),
                count <= cells.position(),
            ensures
                count == self@.edge_list().len(),
            decreases cells.remaining().len(),
        {
            proof {
                cells.lemma_position_in_range();
                if cells.position() < self.edges@.len() {
                    lemma_slot_pair_at(cells.position() as int, self.nodes@.len() as int);
                }
            }
            match cells.next() {
                Some((_, _, cell)) => {
                    if cell.is_edge() {
                        count += 1;
                    }
                },
                None => {
                    break ;
                },
            }
        }
        proof {
            self@.lemma_edge_list_len();
        }
        count
    }

    /// Replaces the payload of node `index`.
    pub fn set_node(&mut self, index: usize, value: N)
        requires
            old(self).wf(),
            old(self)@.has_node(index as int),
        ensures
            final(self).wf(),
            final(self)@ == old(self)@.set_node(index as int, value),
    {
        self.nodes[index] = value;
        proof {
            assert(self@.edges =~= old(self)@.edges);
        }
    }

    /// Appends a node and returns its index.
    pub fn add_node(&mut self, value: N) -> (index: usize)
        requires
            old(self).wf(),
            (old(self)@.node_count() + 1) * (old(self)@.node_count() + 1) <= usize::MAX,
        ensures
            final(self).wf(),
            final(self)@ == old(self)@.add_node(value),
            index == old(self)@.node_count(),
    {
        let index = self.nodes.len();
        self.edges.push_default();
        self.nodes.push(value);
        proof {
            let n = index as int;
            assert forall|a: int, b: int| 0 <= a <= n && 0 <= b <= n implies (if a < n && b
                < n {
                self.edges.cell(a, b) == old(self).edges.cell(a, b)
            } else {
                #[trigger] self.edges.cell(a, b) is Empty
            }) by {
                lemma_slot_in_range(a, b, n + 1);
                if a < n && b < n {
                    lemma_slot_in_range(a, b, n);
                } else {
                    if slot(a, b) < n * n {
                        lemma_slot_pair_at(slot(a, b), n);
                        lemma_pair_at_slot(a, b);
                    }
                    assert(is_default(self.edges@[slot(a, b)]));
                }
            }
            assert(self@.edges =~= old(self)@.edges);
        }
        index
    }

    /// A handle on node `index`, or `None` if there is no such node.
    pub fn node(&self, index: usize) -> (node: Option<NodeRef<'_, N, E>>)
        requires
            self.wf(),
        ensures
            !self@.has_node(index as int) ==> node is None,
            self@.has_node(index as int) ==> {
                &&& node matches Some(handle)
                &&& handle.wf()
                &&& handle.graph() == *self
                &&& handle.entry() == (index as int, self@.nodes[index as int])
            },
    {
        match self.node_count() > index {
            true => Some(NodeRef { graph: self, index, value: &self.nodes[index] }),
            false => None,
        }
    }

    /// The payload of node `index` for writing, or `None` if there is no
    /// such node.
    pub fn node_mut(&mut self, index: usize) -> (node: Option<&mut N>)
        requires
            old(self).wf(),
        ensures
            final(self).wf(),
            !old(self)@.has_node(index as int) ==> node is None && final(self)@ == old(self)@,
            old(self)@.has_node(index as int) ==> {
                &&& node is Some
                &&& *node.unwrap() == old(self)@.nodes[index as int]
                &&& final(self)@ == old(self)@.set_node(index as int, *final(node.unwrap()))
            },
    {
        match self.node_count() > index {
            true => Some(&mut self.nodes[index]),
            false => None,
        }
    }

    /// A handle on the edge from `index_a` to `index_b`, or `None` if one of
    /// the two is no node or there is no such edge.
    pub fn edge(&self, index_a: usize, index_b: usize) -> (edge: Option<EdgeRef<'_, N, E>>)
        requires
            self.wf(),
        ensures
            self@.edge(index_a as int, index_b as int) is None ==> edge is None,
            self@.edge(index_a as int, index_b as int) matches Some(value) ==> {
                &&& edge matches Some(handle)
                &&& handle.wf()
                &&& handle.graph() == *self
                &&& handle.key() == self@.key(index_a as int, index_b as int)
                &&& handle.spec_value() == value
            },
    {
        let (a, b) = if !self.directed && index_a < index_b {
            (index_b, index_a)
        } else {
            (index_a, index_b)
        };
        if self.node_count() > a && self.node_count() > b {
            match self.edges.get(a, b) {
                MatrixCell::Empty => None,
                MatrixCell::Edge(e) => Some(
                    EdgeRef { graph: self, value: e, index_a: a, index_b: b },
                ),
            }
        } else {
            None
        }
    }

    /// Takes node `index` out, with every edge at it. The nodes above it
    /// move down by one index.
    pub fn remove_node(&mut self, index: usize)
        requires
            old(self).wf(),
            old(self)@.has_node(index as int),
        ensures
            final(self).wf(),
            final(self)@ == old(self)@.remove_node(index as int),
    {
        self.edges.remove(index);
        self.nodes.remove(index);
        proof {
            assert(self@.edges =~= old(self)@.remove_node(index as int).edges);
        }
    }

    /// Sets the edge from `index_a` to `index_b`, over any edge that is
    /// there.
    pub fn set_edge(&mut self, index_a: usize, index_b: usize, value: E)
        requires
            old(self).wf(),
            old(self)@.has_node(index_a as int),
            old(self)@.has_node(index_b as int),
        ensures
            final(self).wf(),
            final(self)@ == old(self)@.set_edge(index_a as int, index_b as int, value),
    {
        let (a, b) = if !self.directed && index_a < index_b {
            (index_b, index_a)
        } else {
            (index_a, index_b)
        };
        self.edges.set(a, b, MatrixCell::Edge(value));
        proof {
            self.lemma_one_cell_changed(old(self), a as int, b as int, MatrixCell::Edge(value));
            assert(self@.edges =~= old(self)@.set_edge(index_a as int, index_b as int, value).edges);
        }
    }

    /// Takes out the edge from `index_a` to `index_b`, if there is one.
    pub fn remove_edge(&mut self, index_a: usize, index_b: usize)
        requires
            old(self).wf(),
            old(self)@.has_node(index_a as int),
            old(self)@.has_node(index_b as int),
        ensures
            final(self).wf(),
            final(self)@ == old(self)@.remove_edge(index_a as int, index_b as int),
    {
        let (a, b) = if !self.directed && index_a < index_b {
            (index_b, index_a)
        } else {
            (index_a, index_b)
        };
        self.edges.set(a, b, MatrixCell::Empty);
        proof {
            self.lemma_one_cell_changed(old(self), a as int, b as int, MatrixCell::Empty);
            assert(self@.edges =~= old(self)@.remove_edge(index_a as int, index_b as int).edges);
        }
    }

    /// A walk over all nodes in index order.
    pub fn nodes(&self) -> (it: NodeIterator<'_, N, E>)
        requires
            self.wf(),
        ensures
            it.wf(),
            it.graph() == *self,
            it.remaining() == self@.node_list(),
    {
        NodeIterator::new(self)
    }

    /// A walk over all nodes in index order.
    pub fn iter_nodes(&self) -> (it: NodeIterator<'_, N, E>)
        requires
            self.wf(),
        ensures
            it.wf(),
            it.graph() == *self,
            it.remaining() == self@.node_list(),
    {
        NodeIterator::new(self)
    }

    /// A walk over all edges in storage order.
    pub fn edges(&self) -> (it: EdgeIterator<'_, N, E>)
        requires
            self.wf(),
        ensures
            it.wf(),
            it.graph() == *self,
            it.remaining() == self@.edge_list(),
    {
        EdgeIterator::new(self)
    }

    /// A walk over all edges in storage order.
    pub fn iter_edges(&self) -> (it: EdgeIterator<'_, N, E>)
        requires
            self.wf(),
        ensures
            it.wf(),
            it.graph() == *self,
            it.remaining() == self@.edge_list(),
    {
        EdgeIterator::new(self)
    }

    /// The cell at storage position `i` holds an edge exactly if the view
    /// has an edge at the pair of that position, and then with that payload.
    proof fn lemma_cell_at(&self, i: int)
        requires
            self.wf(),
            0 <= i < self.edges@.len(),
        ensures
            self@.edges.contains_key(pair_at(i)) == (self.edges@[i] is Edge),
            self.edges@[i] is Edge ==> self.edges@[i] == MatrixCell::Edge(self@.edges[pair_at(i)]),
            i < self@.nodes.len() * self@.nodes.len(),
    {
        lemma_slot_pair_at(i, self.nodes@.len() as int);
    }

    /// After a write to the cell of `(a, b)`, the cells of all other pairs
    /// are as before.
    proof fn lemma_one_cell_changed(&self, before: &Self, a: int, b: int, written: MatrixCell<E>)
        requires
            before.edges.wf(),
            0 <= a < before.edges.spec_size(),
            0 <= b < before.edges.spec_size(),
            self.edges@ == before.edges@.update(slot(a, b), written),
        ensures
            self.edges.cell(a, b) == written,
            forall|x: int, y: int|
                0 <= x < before.edges.spec_size() && 0 <= y < before.edges.spec_size() && (x, y)
                    != (a, b) ==> #[trigger] self.edges.cell(x, y) == before.edges.cell(x, y),
    {
        let n = before.edges.spec_size() as int;
        lemma_slot_in_range(a, b, n);
        assert forall|x: int, y: int| 0 <= x < n && 0 <= y < n && (x, y) != (a, b) implies #[trigger]
            self.edges.cell(x, y) == before.edges.cell(x, y) by {
            lemma_slot_in_range(x, y, n);
            if slot(x, y) == slot(a, b) {
                lemma_slot_injective(x, y, a, b);
            }
        }
    }
}

/// A borrowed handle on one node of a graph.
#[derive(Debug, Clone, PartialEq)]
pub struct NodeRef<'a, N, E> {
    graph: &'a Graph<N, E>,
    value: &'a N,
    index: usize,
}

impl<'a, N, E> NodeRef<'a, N, E> {
    /// The graph that the node belongs to.
    pub closed spec fn graph(&self) -> Graph<N, E> {
        *self.graph
    }

    /// The node's index and payload.
    pub closed spec fn entry(&self) -> (int, N) {
        (self.index as int, *self.value)
    }

    /// The handle names a node of a well-formed graph, with its payload.
    pub open spec fn wf(&self) -> bool {
        &&& self.graph().wf()
        &&& self.graph()@.node(self.entry().0) == Some(self.entry().1)
    }

    /// The node's payload.
    pub fn value(&self) -> (value: &N)
        ensures
            *value == self.entry().1,
    {
        self.value
    }

    /// The node's index.
    pub fn index(&self) -> (index: usize)
        ensures
            index == self.entry().0,
    {
        self.index
    }

    /// A walk over the edges at this node in storage order.
    pub fn iter_edges(&'a self) -> (it: AdjEdgeIterator<'a, N, E>)
        requires
            self.wf(),
        ensures
            it.wf(),
            it.graph() == self.graph(),
            it.node() == self.entry().0,
            it.remaining() == self.graph()@.incident_list(self.entry().0),
    {
        AdjEdgeIterator::new(self.graph, self)
    }
}

/// A borrowed handle on one edge of a graph.
#[derive(Debug, Clone, PartialEq)]
pub struct EdgeRef<'a, N, E> {
    graph: &'a Graph<N, E>,
    value: &'a E,
    index_a: usize,
    index_b: usize,
}

impl<'a, N, E> EdgeRef<'a, N, E> {
    /// The graph that the edge belongs to.
    pub closed spec fn graph(&self) -> Graph<N, E> {
        *self.graph
    }

    /// The pair of node indices that the edge is stored at.
    pub closed spec fn key(&self) -> (int, int) {
        (self.index_a as int, self.index_b as int)
    }

    /// The edge's payload.
    pub closed spec fn spec_value(&self) -> E {
        *self.value
    }

    /// The pair that the edge is stored at, and its payload.
    pub open spec fn entry(&self) -> (int, int, E) {
        (self.key().0, self.key().1, self.spec_value())
    }

    /// The handle names an edge of a well-formed graph, with its payload.
    pub open spec fn wf(&self) -> bool {
        &&& self.graph().wf()
        &&& self.graph()@.edges.contains_key(self.key())
        &&& self.graph()@.edges[self.key()] == self.spec_value()
    }

    /// The edge's payload.
    pub fn value(&self) -> (value: &E)
        ensures
            *value == self.spec_value(),
    {
        self.value
    }

    /// The node that the edge is stored as coming from.
    pub fn a(&self) -> (node: NodeRef<'a, N, E>)
        requires
            self.wf(),
        ensures
            node.wf(),
            node.graph() == self.graph(),
            node.entry() == (self.key().0, self.graph()@.nodes[self.key().0]),
    {
        self.graph.node(self.index_a).unwrap()
    }

    /// The node that the edge is stored as going to.
    pub fn b(&self) -> (node: NodeRef<'a, N, E>)
        requires
            self.wf(),
        ensures
            node.wf(),
            node.graph() == self.graph(),
            node.entry() == (self.key().1, self.graph()@.nodes[self.key().1]),
    {
        self.graph.node(self.index_b).unwrap()
    }
}

/// A walk over the nodes of a graph in index order.
#[derive(Debug)]
pub struct NodeIterator<'a, N, E> {
    graph: &'a Graph<N, E>,
    current: usize,
}

impl<'a, N, E> NodeIterator<'a, N, E> {
    /// The graph that is walked over.
    pub closed spec fn graph(&self) -> Graph<N, E> {
        *self.graph
    }

    /// Number of nodes that were handed out.
    pub closed spec fn position(&self) -> nat {
        self.current as nat
    }

    /// The walk stands at a node of a well-formed graph, or at the end.
    pub open spec fn wf(&self) -> bool {
        &&& self.graph().wf()
        &&& self.position() <= self.graph()@.node_count()
    }

    /// The nodes that are still to come, each with its index.
    pub open spec fn remaining(&self) -> Seq<(int, N)> {
        self.graph()@.nodes_from(self.position() as int)
    }

    /// A walk over the nodes of `graph` from the first one.
    pub fn new(graph: &'a Graph<N, E>) -> (it: Self)
        requires
            graph.wf(),
        ensures
            it.wf(),
            it.graph() == *graph,
            it.remaining() == graph@.node_list(),
    {
        Self { graph, current: 0 }
    }

    /// Hands out the next node, or `None` at the end.
    pub fn next(&mut self) -> (item: Option<NodeRef<'a, N, E>>)
        requires
            old(self).wf(),
        ensures
            final(self).wf(),
            final(self).graph() == old(self).graph(),
            old(self).remaining().len() == 0 ==> item is None && final(self).remaining() == old(
                self,
            ).remaining(),
            old(self).remaining().len() > 0 ==> {
                &&& item matches Some(handle)
                &&& handle.wf()
                &&& handle.graph() == old(self).graph()
                &&& handle.entry() == old(self).remaining()[0]
                &&& final(self).remaining() == old(self).remaining().skip(1)
            },
    {
        let item = self.graph.node(self.current);
        if item.is_some() {
            proof {
                assert(self.graph.nodes@.len() == self.graph.nodes.len());
            }
            self.current += 1;
            proof {
                assert(self.remaining() =~= old(self).remaining().skip(1));
            }
        }
        item
    }
}

/// A walk over the edges of a graph in storage order.
pub struct EdgeIterator<'a, N, E> {
    graph: &'a Graph<N, E>,
    inner: AdjacencyMatrixIterator<'a, MatrixCell<E>>,
}

impl<'a, N, E> EdgeIterator<'a, N, E> {
    /// The graph that is walked over.
    pub closed spec fn graph(&self) -> Graph<N, E> {
        *self.graph
    }

    /// Number of matrix cells that the walk has passed.
    pub closed spec fn position(&self) -> nat {
        self.inner.position()
    }

    /// The walk goes over the matrix of a well-formed graph.
    pub closed spec fn wf(&self) -> bool {
        &&& self.graph.wf()
        &&& self.inner.wf()
        &&& self.inner.matrix() == self.graph.edges
    }

    /// The edges that are still to come.
    pub open spec fn remaining(&self) -> Seq<(int, int, E)> {
        self.graph()@.edges_from(self.position() as int)
    }

    /// A walk over the edges of `graph` from the first one.
    pub fn new(graph: &'a Graph<N, E>) -> (it: Self)
        requires
            graph.wf(),
        ensures
            it.wf(),
            it.graph() == *graph,
            it.remaining() == graph@.edge_list(),
    {
        Self { graph, inner: graph.edges.iter() }
    }

    /// Hands out the next edge, or `None` at the end.
    pub fn next(&mut self) -> (item: Option<EdgeRef<'a, N, E>>)
        requires
            old(self).wf(),
        ensures
            final(self).wf(),
            final(self).graph() == old(self).graph(),
            old(self).remaining().len() == 0 ==> item is None && final(self).remaining() == old(
                self,
            ).remaining(),
            old(self).remaining().len() > 0 ==> {
                &&& item matches Some(handle)
                &&& handle.wf()
                &&& handle.graph() == old(self).graph()
                &&& handle.entry() == old(self).remaining()[0]
                &&& final(self).remaining() == old(self).remaining().skip(1)
            },
    {
        loop
            invariant
                self.wf(),
                self.graph == old(self).graph,
                self.remaining() == old(self).remaining(),
            decreases self.inner.remaining().len(),
        {
            proof {
                self.inner.lemma_position_in_range();
                if self.inner.position() < self.graph.edges@.len() {
                    self.graph.lemma_cell_at(self.inner.position() as int);
                }
            }
            let ghost before = self.remaining();
            match self.inner.next() {
                Some((index_a, index_b, cell)) => {
                    if cell.is_edge() {
                        proof {
                            assert(self.remaining() =~= before.skip(1));
                        }
                        return Some(
                            EdgeRef { graph: self.graph, value: cell.unwrap_ref(), index_a, index_b },
                        );
                    }
                },
                None => {
                    return None;
                },
            }
        }
    }
}

/// A walk over the edges at one node of a graph in storage order.
pub struct AdjEdgeIterator<'a, N, E> {
    graph: &'a Graph<N, E>,
    inner: AdjacencyMatrixIterator<'a, MatrixCell<E>>,
    index: usize,
}

impl<'a, N, E> AdjEdgeIterator<'a, N, E> {
    /// The graph that is walked over.
    pub closed spec fn graph(&self) -> Graph<N, E> {
        *self.graph
    }

    /// The index of the node whose edges are walked over.
    pub closed spec fn node(&self) -> int {
        self.index as int
    }

    /// Number of matrix cells that the walk has passed.
    pub closed spec fn position(&self) -> nat {
        self.inner.position()
    }

    /// The walk goes over the matrix of a well-formed graph.
    pub closed spec fn wf(&self) -> bool {
        &&& self.graph.wf()
        &&& self.inner.wf()
        &&& self.inner.matrix() == self.graph.edges
    }

    /// The edges at the node that are still to come.
    pub open spec fn remaining(&self) -> Seq<(int, int, E)> {
        self.graph()@.incident_from(self.node(), self.position() as int)
    }

    /// A walk over those edges of `graph` that are stored at a pair which
    /// names the index of `node`, from the first one.
    pub fn new(graph: &'a Graph<N, E>, node: &'a NodeRef<N, E>) -> (it: Self)
        requires
            graph.wf(),
        ensures
            it.wf(),
            it.graph() == *graph,
            it.node() == node.entry().0,
            it.remaining() == graph@.incident_list(node.entry().0),
    {
        Self { graph, inner: graph.edges.iter(), index: node.index }
    }

    /// Hands out the next edge at the node, or `None` at the end.
    pub fn next(&mut self) -> (item: Option<EdgeRef<'a, N, E>>)
        requires
            old(self).wf(),
        ensures
            final(self).wf(),
            final(self).graph() == old(self).graph(),
            final(self).node() == old(self).node(),
            old(self).remaining().len() == 0 ==> item is None && final(self).remaining() == old(
                self,
            ).remaining(),
            old(self).remaining().len() > 0 ==> {
                &&& item matches Some(handle)
                &&& handle.wf()
                &&& handle.graph() == old(self).graph()
                &&& handle.entry() == old(self).remaining()[0]
                &&& final(self).remaining() == old(self).remaining().skip(1)
            },
    {
        loop
            invariant
                self.wf(),
                self.graph == old(self).graph,
                self.index == old(self).index,
                self.remaining() == old(self).remaining(),
            decreases self.inner.remaining().len(),
        {
            proof {
                self.inner.lemma_position_in_range();
                if self.inner.position() < self.graph.edges@.len() {
                    self.graph.lemma_cell_at(self.inner.position() as int);
                }
            }
            let ghost before = self.remaining();
            match self.inner.next() {
                Some((index_a, index_b, cell)) => {
                    if cell.is_edge() && (index_a == self.index || index_b == self.index) {
                        proof {
                            assert(self.remaining() =~= before.skip(1));
                        }
                        return Some(
                            EdgeRef { graph: self.graph, value: cell.unwrap_ref(), index_a, index_b },
                        );
                    }
                },
                None => {
                    return None;
                },
            }
        }
    }
}

} // verus!
