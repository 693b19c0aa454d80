//! Packed storage for one cell per ordered pair of node indices.

use vstd::prelude::*;
use crate::layout::{band_len, band_start, kept_before, pair_at, shifted, slot, source_slot};
use crate::layout::{lemma_band_start_monotone, lemma_band_start_next, lemma_kept_step,
    lemma_pair_at_offset, lemma_pair_at_slot, lemma_slot_in_range, lemma_slot_pair_at};

verus! {

/// `v` is a value that `T::default()` may return.
pub open spec fn is_default<T: Default>(v: T) -> bool {
    call_ensures(T::default, (), v)
}

/// A growable store of one cell of type `T` for every ordered pair of node
/// indices below its size, kept in one flat vector in band order.
#[derive(Debug, Clone, PartialEq)]
pub struct AdjacencyMatrix<T> {
    data: Vec<T>,
    size: usize,
}

impl<T> View for AdjacencyMatrix<T> {
    type V = Seq<T>;

    /// The cells in storage order.
    closed spec fn view(&self) -> Seq<T> {
        self.data@
    }
}

impl<T> AdjacencyMatrix<T> {
    /// Number of nodes that the matrix has cells for.
    pub closed spec fn spec_size(&self) -> nat {
        self.size as nat
    }

    /// The matrix holds exactly the bands of its nodes.
    pub open spec fn wf(&self) -> bool {
        self@.len() == self.spec_size() * self.spec_size()
    }

    /// The cell of the ordered pair `(x, y)`.
    pub open spec fn cell(&self, x: int, y: int) -> T {
        self@[slot(x, y)]
    }

    /// All cells in storage order, each with the pair that it belongs to.
    pub open spec fn entries(&self) -> Seq<(int, int, T)> {
        Seq::new(self@.len(), |i: int| (pair_at(i).0, pair_at(i).1, self@[i]))
    }

    /// The entries hold every pair of nodes exactly once: the pair `(x, y)`
    /// at position `slot(x, y)` with its cell, and at every position a pair
    /// of nodes whose position it is.
    pub proof fn lemma_entries_cover(&self)
        requires
            self.wf(),
        ensures
            self.entries().len() == self.spec_size() * self.spec_size(),
            forall|x: int, y: int|
                0 <= x < self.spec_size() && 0 <= y < self.spec_size() ==> {
                    &&& 0 <= slot(x, y) < self.entries().len()
                    &&& self.entries()[slot(x, y)] == (x, y, #[trigger] self.cell(x, y))
                },
            forall|i: int|
                0 <= i < self.entries().len() ==> {
                    &&& 0 <= (#[trigger] self.entries()[i]).0 < self.spec_size()
                    &&& 0 <= self.entries()[i].1 < self.spec_size()
                    &&& slot(self.entries()[i].0, self.entries()[i].1) == i
                },
    {
        let n = self.spec_size() as int;
        assert forall|x: int, y: int| 0 <= x < n && 0 <= y < n implies {
            &&& 0 <= slot(x, y) < self.entries().len()
            &&& self.entries()[slot(x, y)] == (x, y, #[trigger] self.cell(x, y))
        } by {
            lemma_slot_in_range(x, y, n);
            lemma_pair_at_slot(x, y);
        }
        assert forall|i: int| 0 <= i < self.entries().len() implies {
            &&& 0 <= (#[trigger] self.entries()[i]).0 < n
            &&& 0 <= self.entries()[i].1 < n
            &&& slot(self.entries()[i].0, self.entries()[i].1) == i
        } by {
            lemma_slot_pair_at(i, n);
        }
    }

    /// An empty matrix.
    pub fn new() -> (m: Self)
        ensures
            m.wf(),
            m.spec_size() == 0,
            m@ == Seq::<T>::empty(),
    {
        Self { data: Vec::new(), size: 0 }
    }

    /// An empty matrix with room for `capacity` cells.
    pub fn with_capacity(capacity: usize) -> (m: Self)
        ensures
            m.wf(),
            m.spec_size() == 0,
            m@ == Seq::<T>::empty(),
    {
        Self { data: Vec::with_capacity(capacity), size: 0 }
    }

    /// Number of nodes that the matrix has cells for.
    pub fn size(&self) -> (n: usize)
        ensures
            n == self.spec_size(),
    {
        self.size
    }

    /// The cells in storage order.
    pub fn data(&self) -> (cells: &Vec<T>)
        ensures
            cells@ == self@,
    {
        &self.data
    }

    /// Number of slots in the band of node `chunk`.
    pub fn chunk_len(chunk: usize) -> (len: usize)
        requires
            band_len(chunk as int) <= usize::MAX,
        ensures
            len == band_len(chunk as int),
    {
        (chunk * 2) + 1
    }

    /// Flat position at which the band of node `chunk` starts.
    pub fn chunk_offset(chunk: usize) -> (offset: usize)
        requires
            band_start(chunk as int) <= usize::MAX,
        ensures
            offset == band_start(chunk as int),
    {
        chunk * chunk
    }

    /// Flat position of the cell of `(x, y)`.
    fn position(&self, x: usize, y: usize) -> (p: usize)
        requires
            self.wf(),
            x < self.spec_size(),
            y < self.spec_size(),
        ensures
            p == slot(x as int, y as int),
            p < self@.len(),
    {
        proof {
            lemma_slot_in_range(x as int, y as int, self.size as int);
            lemma_band_start_monotone(0, if x > y { x as int } else { y as int });
            assert(self.data@.len() == self.data.len());
        }
        let (chunk, inner) = if x > y {
            (x, y)
        } else {
            (y, x + y)
        };
        let offset = Self::chunk_offset(chunk);
        offset + inner
    }

    /// The cell of `(x, y)`.
    pub fn get(&self, x: usize, y: usize) -> (cell: &T)
        requires
            self.wf(),
            x < self.spec_size(),
            y < self.spec_size(),
        ensures
            *cell == self.cell(x as int, y as int),
    {
        let p = self.position(x, y);
        &self.data[p]
    }

    /// The cell of `(x, y)`, for writing.
    pub fn get_mut(&mut self, x: usize, y: usize) -> (cell: &mut T)
        requires
            old(self).wf(),
            x < old(self).spec_size(),
            y < old(self).spec_size(),
        ensures
            *cell == old(self).cell(x as int, y as int),
            final(self)@ == old(self)@.update(slot(x as int, y as int), *final(cell)),
            final(self).spec_size() == old(self).spec_size(),
            final(self).wf(),
    {
        let p = self.position(x, y);
        &mut self.data[p]
    }

    /// Appends the band of one more node, every cell of it a default value.
    /// The cells of the pairs of earlier nodes stay where they are.
    pub fn push_default(&mut self)
        where T: Default
        requires
            old(self).wf(),
            (old(self).spec_size() + 1) * (old(self).spec_size() + 1) <= usize::MAX,
        ensures
            final(self).wf(),
            final(self).spec_size() == old(self).spec_size() + 1,
            final(self)@.len() == old(self)@.len() + band_len(old(self).spec_size() as int),
            forall|i: int|
                0 <= i < old(self)@.len() ==> #[trigger] final(self)@[i] == old(self)@[i],
            forall|i: int|
                old(self)@.len() <= i < final(self)@.len() ==> is_default(
                    #[trigger] final(self)@[i],
                ),
    {
        proof {
            lemma_band_start_next(self.size as int);
        }
        let len = Self::chunk_len(self.size);
        let ghost cells = self@;
        let mut added: usize = 0;
        while added < len
            invariant
                added <= len,
                self.size == old(self).size,
                len == band_len(self.size as int),
                cells.len() == band_start(self.size as int),
                cells.len() + len <= usize::MAX,
                self.data@.len() == cells.len() + added,
                forall|i: int| 0 <= i < cells.len() ==> #[trigger] self.data@[i] == cells[i],
                forall|i: int|
                    cells.len() <= i < self.data@.len() ==> is_default(#[trigger] self.data@[i]),
            decreases len - added,
        {
            self.data.push(T::default());
            added += 1;
        }
        proof {
            lemma_band_start_monotone(0, self.size as int);
        }
        self.size += 1;
    }

    /// Takes node `remove` out: drops every cell of a pair that names it and
    /// renumbers the nodes above it down by one, so that the cell of `(x, y)`
    /// afterwards is the cell that the same two nodes had before.
    pub fn remove(&mut self, remove: usize)
        requires
            old(self).wf(),
            remove < old(self).spec_size(),
        ensures
            final(self).wf(),
            final(self).spec_size() == old(self).spec_size() - 1,
            forall|x: int, y: int|
                0 <= x < final(self).spec_size() && 0 <= y < final(self).spec_size()
                    ==> #[trigger] final(self).cell(x, y) == old(self).cell(
                    shifted(x, remove as int),
                    shifted(y, remove as int),
                ),
    {
        let ghost cells = self@;
        let ghost n = self.size as int;
        let ghost r = remove as int;
        let mut drained: Vec<T> = Vec::new();
        core::mem::swap(&mut self.data, &mut drained);
        let mut kept: Vec<T> = Vec::new();
        let mut chunk: usize = 0;
        let mut inner: usize = 0;
        proof {
            assert(drained@.len() == drained.len());
        }
        for el in it: drained.into_iter()
            invariant
                r == remove,
                0 <= r < n,
                n * n <= usize::MAX,
                it.seq() == cells,
                cells.len() == n * n,
                it.index() == band_start(chunk as int) + inner,
                inner < band_len(chunk as int),
                chunk <= n,
                it.index() < n * n ==> chunk < n,
                kept@.len() == kept_before(chunk as int, inner as int, r),
                forall|q: int|
                    0 <= q < kept@.len() ==> #[trigger] kept@[q] == cells[source_slot(q, r)],
        {
            proof {
                lemma_kept_step(chunk as int, inner as int, r);
                lemma_band_start_next(chunk as int);
                lemma_band_start_monotone(chunk as int + 1, n);
                lemma_band_start_monotone(0, chunk as int);
            }
            let (x, y) = if chunk > inner {
                (chunk, inner)
            } else {
                (inner - chunk, chunk)
            };
            if x != remove && y != remove {
                kept.push(el);
            }
            inner += 1;
            if inner == Self::chunk_len(chunk) {
                chunk += 1;
                inner = 0;
            }
        }
        self.data = kept;
        self.size -= 1;
        proof {
            lemma_band_start_monotone(0, chunk as int);
            if chunk < n {
                lemma_band_start_monotone(chunk as int + 1, n);
                lemma_band_start_next(chunk as int);
            }
            assert forall|x: int, y: int|
                0 <= x < self.spec_size() && 0 <= y < self.spec_size() implies #[trigger] self.cell(
                x,
                y,
            ) == cells[slot(shifted(x, r), shifted(y, r))] by {
                lemma_slot_in_range(x, y, n - 1);
                lemma_pair_at_slot(x, y);
            }
        }
    }

    /// Overwrites the cell of `(x, y)`.
    pub fn set(&mut self, x: usize, y: usize, value: T)
        requires
            old(self).wf(),
            x < old(self).spec_size(),
            y < old(self).spec_size(),
        ensures
            final(self)@ == old(self)@.update(slot(x as int, y as int), value),
            final(self).spec_size() == old(self).spec_size(),
            final(self).wf(),
    {
        *self.get_mut(x, y) = value;
    }

    /// A walk over all cells in storage order, from the first one.
    pub fn iter(&self) -> (it: AdjacencyMatrixIterator<'_, T>)
        requires
            self.wf(),
        ensures
            it.wf(),
            it.matrix() == *self,
            it.position() == 0,
            it.remaining() == self.entries(),
    {
        AdjacencyMatrixIterator::new(self)
    }
}

/// A walk over the cells of a matrix in storage order: band by band, in each
/// band first the pairs that have the band's node first, then those that
/// have it second.
pub struct AdjacencyMatrixIterator<'a, T> {
    matrix: &'a AdjacencyMatrix<T>,
    index: usize,
    inner_index: usize,
    chunk: usize,
}

impl<'a, T> AdjacencyMatrixIterator<'a, T> {
    /// The matrix that is walked over.
    pub closed spec fn matrix(&self) -> AdjacencyMatrix<T> {
        *self.matrix
    }

    /// Number of cells that were handed out.
    pub closed spec fn position(&self) -> nat {
        self.index as nat
    }

    /// The walk stands at a cell of its matrix, or at the end.
    pub closed spec fn wf(&self) -> bool {
        &&& self.matrix.wf()
        &&& self.index <= self.matrix@.len()
        &&& self.index == band_start(self.chunk as int) + self.inner_index
        &&& self.inner_index < band_len(self.chunk as int)
    }

    /// What is still to come: each cell with the pair that it belongs to.
    pub open spec fn remaining(&self) -> Seq<(int, int, T)> {
        self.matrix().entries().skip(self.position() as int)
    }

    /// A walk over `matrix` from its first cell.
    pub fn new(matrix: &'a AdjacencyMatrix<T>) -> (it: Self)
        requires
            matrix.wf(),
        ensures
            it.wf(),
            it.matrix() == *matrix,
            it.position() == 0,
            it.remaining() == matrix.entries(),
    {
        let it = Self { matrix, index: 0, inner_index: 0, chunk: 0 };
        proof {
            assert(it.remaining() =~= matrix.entries());
        }
        it
    }

    /// A well-formed walk never stands behind the end of its matrix, whose
    /// cells are no more than a vector can hold.
    pub proof fn lemma_position_in_range(&self)
        requires
            self.wf(),
        ensures
            self.matrix().wf(),
            self.position() <= self.matrix()@.len() <= usize::MAX,
    {
        assert(self.matrix.data@.len() == self.matrix.data.len());
    }

    /// Hands out the next cell with its pair, or `None` at the end.
    pub fn next(&mut self) -> (item: Option<(usize, usize, &'a T)>)
        requires
            old(self).wf(),
        ensures
            final(self).wf(),
            final(self).matrix() == old(self).matrix(),
            old(self).remaining().len() == 0 ==> item is None && final(self).position() == old(
                self,
            ).position(),
            old(self).remaining().len() > 0 ==> {
                &&& item matches Some(entry)
                &&& (entry.0 as int, entry.1 as int, *entry.2) == old(self).remaining()[0]
                &&& final(self).position() == old(self).position() + 1
                &&& final(self).remaining() == old(self).remaining().skip(1)
            },
    {
        if self.index < self.matrix.data.len() {
            proof {
                let n = self.matrix.size as int;
                lemma_pair_at_offset(self.chunk as int, self.inner_index as int);
                lemma_slot_pair_at(self.index as int, n);
                lemma_band_start_next(self.chunk as int);
                lemma_band_start_monotone(self.chunk as int + 1, n);
            }
            let (x, y) = if self.chunk > self.inner_index {
                (self.chunk, self.inner_index)
            } else {
                (self.inner_index - self.chunk, self.chunk)
            };
            let cell = &self.matrix.data[self.index];
            self.index += 1;
            self.inner_index += 1;
            if self.index >= AdjacencyMatrix::<T>::chunk_offset(self.chunk + 1) {
                self.chunk += 1;
                self.inner_index = 0;
            }
            proof {
                assert(self.remaining() =~= old(self).remaining().skip(1));
            }
            Some((x, y, cell))
        } else {
            None
        }
    }
}

} // verus!
