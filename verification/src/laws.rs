//! What holds of every graph: how its operations act together.
//!
//! The laws are stated over [`GraphView`], the model that the contracts of
//! the executable operations are written in.

use vstd::prelude::*;
use crate::layout::{shifted, slot, pair_at};
use crate::layout::{lemma_pair_at_slot, lemma_slot_in_range, lemma_slot_pair_at};
use crate::model::GraphView;

verus! {

/// One change to the nodes of a graph.
pub enum NodeStep<N> {
    /// A node with this payload is appended.
    Append(N),
    /// The node at this index is taken out.
    Remove(int),
}

/// Number of appends among `steps`.
pub open spec fn appends<N>(steps: Seq<NodeStep<N>>) -> nat
    decreases steps.len(),
{
    if steps.len() == 0 {
        0
    } else {
        appends(steps.drop_last()) + if steps.last() is Append {
            1nat
        } else {
            0nat
        }
    }
}

/// Number of removals among `steps`.
pub open spec fn removals<N>(steps: Seq<NodeStep<N>>) -> nat
    decreases steps.len(),
{
    if steps.len() == 0 {
        0
    } else {
        removals(steps.drop_last()) + if steps.last() is Remove {
            1nat
        } else {
            0nat
        }
    }
}

impl<N, E> GraphView<N, E> {
    /// Whether `step` can be made: a removal has to name a node.
    pub open spec fn admits(self, step: NodeStep<N>) -> bool {
        match step {
            NodeStep::Append(_) => true,
            NodeStep::Remove(i) => self.has_node(i),
        }
    }

    /// The graph after `step`.
    pub open spec fn step(self, step: NodeStep<N>) -> Self {
        match step {
            NodeStep::Append(value) => self.add_node(value),
            NodeStep::Remove(i) => self.remove_node(i),
        }
    }

    /// The graph after `steps`, made in order.
    pub open spec fn run(self, steps: Seq<NodeStep<N>>) -> Self
        decreases steps.len(),
    {
        if steps.len() == 0 {
            self
        } else {
            self.run(steps.drop_last()).step(steps.last())
        }
    }

    /// Whether each of `steps` can be made when its turn comes.
    pub open spec fn admits_all(self, steps: Seq<NodeStep<N>>) -> bool
        decreases steps.len(),
    {
        steps.len() == 0 || (self.admits_all(steps.drop_last()) && self.run(
            steps.drop_last(),
        ).admits(steps.last()))
    }

    /// The graph after each of `edges` was set, in order.
    pub open spec fn set_edges(self, edges: Seq<(int, int, E)>) -> Self
        decreases edges.len(),
    {
        if edges.len() == 0 {
            self
        } else {
            self.set_edges(edges.drop_last()).set_edge(
                edges.last().0,
                edges.last().1,
                edges.last().2,
            )
        }
    }
}

/// A graph of fewer than `0xffff` nodes has room for one more on every
/// machine: the matrix cells of all of them can be counted in a `usize`.
pub proof fn lemma_room_for_node(n: nat)
    requires
        n < 0xffff,
    ensures
        (n + 1) * (n + 1) <= usize::MAX,
{
    assert((n + 1) * (n + 1) <= 0xffff * 0xffff) by (nonlinear_arith)
        requires
            0 <= n < 0xffff,
    ;
}

/// The indices of the nodes are exactly `0 .. node_count()`.
pub proof fn lemma_node_indices_dense<N, E>(g: GraphView<N, E>, i: int)
    ensures
        g.node(i) is Some <==> 0 <= i < g.node_count(),
{
}

/// After any run of appends and removals of nodes, the graph is still
/// well-formed and has as many nodes more as there were appends, and as many
/// fewer as there were removals.
pub proof fn lemma_node_count_after_steps<N, E>(g: GraphView<N, E>, steps: Seq<NodeStep<N>>)
    requires
        g.wf(),
        g.admits_all(steps),
    ensures
        g.run(steps).wf(),
        g.run(steps).node_count() == g.node_count() + appends(steps) - removals(steps),
    decreases steps.len(),
{
    if steps.len() > 0 {
        lemma_node_count_after_steps(g, steps.drop_last());
        let before = g.run(steps.drop_last());
        match steps.last() {
            NodeStep::Append(value) => {
                before.lemma_add_node_wf(value);
            },
            NodeStep::Remove(i) => {
                before.lemma_remove_node_wf(i);
            },
        }
    }
}

/// In an undirected graph the edge from `p` to `q` is the edge from `q` to
/// `p`.
pub proof fn lemma_undirected_edge_symmetric<N, E>(g: GraphView<N, E>, p: int, q: int)
    requires
        !g.directed,
    ensures
        g.edge(p, q) == g.edge(q, p),
{
}

/// In a directed graph the edges from `p` to `q` and from `q` to `p` are
/// set independently of each other.
pub proof fn lemma_directed_edges_independent<N, E>(
    g: GraphView<N, E>,
    p: int,
    q: int,
    v1: E,
    v2: E,
)
    requires
        g.directed,
        g.has_node(p),
        g.has_node(q),
        p != q,
    ensures
        g.set_edge(p, q, v1).set_edge(q, p, v2).edge(p, q) == Some(v1),
        g.set_edge(p, q, v1).set_edge(q, p, v2).edge(q, p) == Some(v2),
{
}

/// An edge that was set is found, with the payload it was set to.
pub proof fn lemma_set_edge_then_edge<N, E>(g: GraphView<N, E>, a: int, b: int, value: E)
    requires
        g.has_node(a),
        g.has_node(b),
    ensures
        g.set_edge(a, b, value).edge(a, b) == Some(value),
{
}

/// Setting an edge leaves every other edge as it was.
pub proof fn lemma_set_edge_keeps_others<N, E>(
    g: GraphView<N, E>,
    a: int,
    b: int,
    value: E,
    c: int,
    d: int,
)
    requires
        g.key(c, d) != g.key(a, b),
    ensures
        g.set_edge(a, b, value).edge(c, d) == g.edge(c, d),
{
}

/// An edge that was removed is not found, and every other edge is as it was.
pub proof fn lemma_remove_edge_then_edge<N, E>(g: GraphView<N, E>, a: int, b: int, c: int, d: int)
    ensures
        g.remove_edge(a, b).edge(a, b) is None,
        g.key(c, d) != g.key(a, b) ==> g.remove_edge(a, b).edge(c, d) == g.edge(c, d),
{
}

/// Setting an edge where there was none makes one edge more; setting it over
/// another one leaves the number of edges as it was.
pub proof fn lemma_set_edge_count<N, E>(g: GraphView<N, E>, a: int, b: int, value: E)
    requires
        g.wf(),
        g.has_node(a),
        g.has_node(b),
    ensures
        g.set_edge(a, b, value).edge_count() == g.edge_count() + if g.edge(a, b) is None {
            1nat
        } else {
            0nat
        },
{
    g.lemma_edge_list_len();
}

/// Removing an edge that is there makes one edge fewer; removing one that is
/// not there changes nothing, so a second removal of the same edge changes
/// nothing.
pub proof fn lemma_remove_edge_count<N, E>(g: GraphView<N, E>, a: int, b: int)
    requires
        g.wf(),
        g.has_node(a),
        g.has_node(b),
    ensures
        g.remove_edge(a, b).edge_count() == g.edge_count() - if g.edge(a, b) is Some {
            1nat
        } else {
            0nat
        },
        g.edge(a, b) is None ==> g.remove_edge(a, b) == g,
        g.remove_edge(a, b).remove_edge(a, b) == g.remove_edge(a, b),
{
    g.lemma_edge_list_len();
    assert(g.remove_edge(a, b).remove_edge(a, b).edges =~= g.remove_edge(a, b).edges);
    if g.edge(a, b) is None {
        assert(g.remove_edge(a, b).edges =~= g.edges);
    }
}

/// After setting edges between nodes of the graph, where none of them was
/// there before and no two of them are the same edge, the graph has as many
/// edges more as were set.
pub proof fn lemma_edge_count_after_sets<N, E>(g: GraphView<N, E>, edges: Seq<(int, int, E)>)
    requires
        g.wf(),
        forall|i: int|
            0 <= i < edges.len() ==> {
                &&& g.has_node(#[trigger] edges[i].0)
                &&& g.has_node(edges[i].1)
                &&& g.edge(edges[i].0, edges[i].1) is None
            },
        forall|i: int, j: int|
            0 <= i < j < edges.len() ==> g.key(#[trigger] edges[i].0, edges[i].1) != g.key(
                #[trigger] edges[j].0,
                edges[j].1,
            ),
    ensures
        g.set_edges(edges).wf(),
        g.set_edges(edges).nodes == g.nodes,
        g.set_edges(edges).directed == g.directed,
        g.set_edges(edges).edge_count() == g.edge_count() + edges.len(),
        forall|k: (int, int)|
            g.set_edges(edges).edges.contains_key(k) <==> g.edges.contains_key(k) || exists|
                i: int,
            |
                0 <= i < edges.len() && k == g.key(#[trigger] edges[i].0, edges[i].1),
    decreases edges.len(),
{
    if edges.len() > 0 {
        let front = edges.drop_last();
        let last = edges.last();
        let n = edges.len() - 1;
        assert(last == edges[n]);
        assert forall|i: int| 0 <= i < front.len() implies front[i] == edges[i] by {}
        lemma_edge_count_after_sets(g, front);
        let before = g.set_edges(front);
        let key = g.key(last.0, last.1);
        assert(before.key(last.0, last.1) == key);
        assert(!before.edges.contains_key(key)) by {
            if before.edges.contains_key(key) {
                let i = choose|i: int|
                    0 <= i < front.len() && key == g.key(#[trigger] front[i].0, front[i].1);
                assert(g.key(edges[i].0, edges[i].1) != g.key(edges[n].0, edges[n].1));
            }
        }
        before.lemma_set_edge_wf(last.0, last.1, last.2);
        lemma_set_edge_count(before, last.0, last.1, last.2);
        assert forall|k: (int, int)|
            g.set_edges(edges).edges.contains_key(k) <==> g.edges.contains_key(k) || exists|
                i: int,
            |
                0 <= i < edges.len() && k == g.key(#[trigger] edges[i].0, edges[i].1) by {
            if k == key {
                assert(k == g.key(edges[n].0, edges[n].1));
            } else if before.edges.contains_key(k) && !g.edges.contains_key(k) {
                let i = choose|i: int|
                    0 <= i < front.len() && k == g.key(#[trigger] front[i].0, front[i].1);
                assert(k == g.key(edges[i].0, edges[i].1));
            } else if exists|i: int|
                0 <= i < edges.len() && k == g.key(#[trigger] edges[i].0, edges[i].1) {
                let i = choose|i: int|
                    0 <= i < edges.len() && k == g.key(#[trigger] edges[i].0, edges[i].1);
                assert(i < n);
                assert(k == g.key(front[i].0, front[i].1));
            }
        }
    }
}

/// After node `i` was removed, the nodes and edges are those of before
/// under their new indices: what is now at `a` was at `shifted(a, i)`.
pub proof fn lemma_remove_node_renumbers<N, E>(g: GraphView<N, E>, i: int, a: int, b: int)
    requires
        g.wf(),
        g.has_node(i),
        g.remove_node(i).has_node(a),
        g.remove_node(i).has_node(b),
    ensures
        g.remove_node(i).node_count() == g.node_count() - 1,
        g.remove_node(i).node(a) == g.node(shifted(a, i)),
        g.remove_node(i).edge(a, b) == g.edge(shifted(a, i), shifted(b, i)),
{
}

/// What a walk over the edges lists, from storage position `i` on and at
/// `node` only if one is given, are edges of the graph with their payloads,
/// stored at `i` or behind it, and at that node.
pub proof fn lemma_listed_sound<N, E>(g: GraphView<N, E>, node: Option<int>, i: int, j: int)
    requires
        g.wf(),
        0 <= i,
        0 <= j < g.listed_from(node, i).len(),
    ensures
        ({
            let e = g.listed_from(node, i)[j];
            &&& g.edges.contains_key((e.0, e.1))
            &&& g.edges[(e.0, e.1)] == e.2
            &&& GraphView::<N, E>::at_node(node, (e.0, e.1))
            &&& slot(e.0, e.1) >= i
        }),
    decreases g.nodes.len() * g.nodes.len() - i,
{
    let n = g.nodes.len() as int;
    if i < n * n {
        lemma_slot_pair_at(i, n);
        let k = pair_at(i);
        if g.edges.contains_key(k) && GraphView::<N, E>::at_node(node, k) {
            if j > 0 {
                lemma_listed_sound(g, node, i + 1, j - 1);
            }
        } else {
            lemma_listed_sound(g, node, i + 1, j);
        }
    }
}

/// A walk over the edges lists them in storage order: what comes later is
/// stored behind what comes earlier. So no edge is listed twice.
pub proof fn lemma_listed_ordered<N, E>(
    g: GraphView<N, E>,
    node: Option<int>,
    i: int,
    j1: int,
    j2: int,
)
    requires
        g.wf(),
        0 <= i,
        0 <= j1 < j2 < g.listed_from(node, i).len(),
    ensures
        ({
            let e1 = g.listed_from(node, i)[j1];
            let e2 = g.listed_from(node, i)[j2];
            slot(e1.0, e1.1) < slot(e2.0, e2.1)
        }),
    decreases g.nodes.len() * g.nodes.len() - i,
{
    let n = g.nodes.len() as int;
    if i < n * n {
        lemma_slot_pair_at(i, n);
        let k = pair_at(i);
        if g.edges.contains_key(k) && GraphView::<N, E>::at_node(node, k) {
            if j1 > 0 {
                lemma_listed_ordered(g, node, i + 1, j1 - 1, j2 - 1);
            } else {
                lemma_listed_sound(g, node, i + 1, j2 - 1);
            }
        } else {
            lemma_listed_ordered(g, node, i + 1, j1, j2);
        }
    }
}

/// A walk over the edges leaves none out: every edge that is stored at
/// position `i` or behind it, and at `node` if one is given, is listed.
pub proof fn lemma_listed_complete<N, E>(
    g: GraphView<N, E>,
    node: Option<int>,
    i: int,
    k: (int, int),
)
    requires
        g.wf(),
        0 <= i,
        g.edges.contains_key(k),
        GraphView::<N, E>::at_node(node, k),
        slot(k.0, k.1) >= i,
    ensures
        exists|j: int|
            0 <= j < g.listed_from(node, i).len() && #[trigger] g.listed_from(node, i)[j] == (
                k.0,
                k.1,
                g.edges[k],
            ),
    decreases g.nodes.len() * g.nodes.len() - i,
{
    let n = g.nodes.len() as int;
    lemma_slot_in_range(k.0, k.1, n);
    lemma_pair_at_slot(k.0, k.1);
    let entry = (k.0, k.1, g.edges[k]);
    if slot(k.0, k.1) == i {
        assert(g.listed_from(node, i)[0] == entry);
    } else {
        lemma_listed_complete(g, node, i + 1, k);
        let j = choose|j: int|
            0 <= j < g.listed_from(node, i + 1).len() && #[trigger] g.listed_from(node, i + 1)[j]
                == entry;
        let head = pair_at(i);
        if g.edges.contains_key(head) && GraphView::<N, E>::at_node(node, head) {
            assert(g.listed_from(node, i)[j + 1] == entry);
        } else {
            assert(g.listed_from(node, i)[j] == entry);
        }
    }
}

/// In an undirected graph an edge between two different nodes `p` and `q`
/// is listed exactly once among all edges, exactly once among the edges at
/// `p`, and exactly once among the edges at `q`.
pub proof fn lemma_undirected_edge_listed_once<N, E>(
    g: GraphView<N, E>,
    p: int,
    q: int,
    node: Option<int>,
)
    requires
        g.wf(),
        !g.directed,
        p != q,
        g.edge(p, q) is Some,
        node is None || node == Some(p) || node == Some(q),
    ensures
        exists|j: int|
            {
                &&& 0 <= j < g.listed_from(node, 0).len()
                &&& #[trigger] g.listed_from(node, 0)[j] == (
                    g.key(p, q).0,
                    g.key(p, q).1,
                    g.edge(p, q)->0,
                )
                &&& forall|other: int|
                    0 <= other < g.listed_from(node, 0).len() && other != j ==> {
                        let e = #[trigger] g.listed_from(node, 0)[other];
                        (e.0, e.1) != g.key(p, q) && (e.0, e.1) != g.key(q, p)
                    }
            },
{
    let k = g.key(p, q);
    let list = g.listed_from(node, 0);
    lemma_slot_in_range(k.0, k.1, g.nodes.len() as int);
    lemma_listed_complete(g, node, 0, k);
    let j = choose|j: int| 0 <= j < list.len() && #[trigger] list[j] == (k.0, k.1, g.edges[k]);
    assert forall|other: int| 0 <= other < list.len() && other != j implies {
        let e = #[trigger] list[other];
        (e.0, e.1) != g.key(p, q) && (e.0, e.1) != g.key(q, p)
    } by {
        if other < j {
            lemma_listed_ordered(g, node, 0, other, j);
        } else {
            lemma_listed_ordered(g, node, 0, j, other);
        }
    }
}

} // verus!
