//! The content of one slot of the adjacency matrix.

use vstd::prelude::*;

verus! {

/// Either no edge, or an edge with its payload.
#[derive(Debug, Clone, PartialEq)]
pub enum MatrixCell<T> {
    Empty,
    Edge(T),
}

impl<T> Default for MatrixCell<T> {
    /// The default cell holds no edge.
    fn default() -> (cell: Self)
        ensures
            cell is Empty,
    {
        Self::Empty
    }
}

impl<T> MatrixCell<T> {
    /// The payload of the edge, if the cell holds one.
    pub open spec fn payload(self) -> Option<T> {
        match self {
            MatrixCell::Empty => None,
            MatrixCell::Edge(e) => Some(e),
        }
    }

    /// Whether the cell holds no edge.
    pub fn is_empty(&self) -> (b: bool)
        ensures
            b == (self is Empty),
    {
        match self {
            MatrixCell::Empty => true,
            MatrixCell::Edge(_) => false,
        }
    }

    /// Whether the cell holds an edge.
    #[inline]
    pub fn is_edge(&self) -> (b: bool)
        ensures
            b == (self is Edge),
    {
        !self.is_empty()
    }

    /// The payload of a cell that holds an edge.
    pub fn unwrap(self) -> (e: T)
        requires
            self is Edge,
        ensures
            self == MatrixCell::Edge(e),
    {
        match self {
            MatrixCell::Empty => vstd::pervasive::unreached(),
            MatrixCell::Edge(e) => e,
        }
    }

    /// The payload of a cell that holds an edge, by reference.
    pub fn unwrap_ref(&self) -> (e: &T)
        requires
            self is Edge,
        ensures
            *self == MatrixCell::Edge(*e),
    {
        match self {
            MatrixCell::Empty => vstd::pervasive::unreached(),
            MatrixCell::Edge(e) => e,
        }
    }
}

} // verus!
