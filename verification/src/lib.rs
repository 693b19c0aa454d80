//! A generic graph container whose edges live in a packed, band-organised
//! adjacency matrix.
//!
//! A [`Graph`] owns its node payloads in a vector and its edge payloads in an
//! [`AdjacencyMatrix`], which keeps one cell per ordered pair of node indices
//! in a single flat vector. Nodes are addressed by their dense index, edges
//! by the indices of their two ends. What a graph holds is described by its
//! view, a [`GraphView`], and the contracts of all operations are stated over
//! that view.

pub mod cell;
pub mod graph;
pub mod laws;
pub mod layout;
pub mod matrix;
pub mod model;

pub use crate::cell::MatrixCell;
pub use crate::graph::{AdjEdgeIterator, EdgeIterator, EdgeRef, Graph, NodeIterator, NodeRef};
pub use crate::matrix::{AdjacencyMatrix, AdjacencyMatrixIterator};
pub use crate::model::GraphView;

use vstd::prelude::*;

verus! {

/// A payload for graphs whose nodes or edges carry nothing.
#[derive(Debug)]
pub struct Void;

impl Default for Void {
    fn default() -> (v: Self)
        ensures
            v == Void,
    {
        Void
    }
}

} // verus!
