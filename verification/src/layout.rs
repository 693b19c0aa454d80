//! The addressing scheme of the packed adjacency matrix.
//!
//! The cells of all ordered pairs `(x, y)` of node indices are laid out in
//! bands. Band `k` holds the `2k + 1` pairs whose larger index is `k`: first
//! the `k` pairs `(k, 0) .. (k, k - 1)`, then the `k + 1` pairs
//! `(0, k) .. (k, k)`. Band `k` starts at flat position `k * k`, so the
//! bands of `n` nodes fill exactly the positions `0 .. n * n`.
//!
//! [`slot`] maps a pair to its flat position and [`pair_at`] maps a position
//! back to its pair; the lemmas below show that the two are inverse to each
//! other.

use vstd::prelude::*;

verus! {

/// Number of slots in band `chunk`.
pub open spec fn band_len(chunk: int) -> int {
    2 * chunk + 1
}

/// Flat position of the first slot of band `chunk`.
pub open spec fn band_start(chunk: int) -> int {
    chunk * chunk
}

/// Flat position of the cell of the ordered pair `(x, y)`.
pub open spec fn slot(x: int, y: int) -> int {
    if x > y {
        band_start(x) + y
    } else {
        band_start(y) + x + y
    }
}

/// Position `i` lies in band `k`.
pub open spec fn in_band(i: int, k: int) -> bool {
    0 <= k && band_start(k) <= i < band_start(k + 1)
}

/// The band that flat position `i` lies in.
pub open spec fn band_of(i: int) -> int {
    choose|k: int| in_band(i, k)
}

/// The ordered pair whose cell sits at offset `inner` of band `chunk`.
pub open spec fn pair_in_band(chunk: int, inner: int) -> (int, int) {
    if chunk > inner {
        (chunk, inner)
    } else {
        (inner - chunk, chunk)
    }
}

/// The ordered pair whose cell sits at flat position `i`.
pub open spec fn pair_at(i: int) -> (int, int) {
    pair_in_band(band_of(i), i - band_start(band_of(i)))
}

/// The index that node `j` had before the node at `removed` was taken out.
pub open spec fn shifted(j: int, removed: int) -> int {
    if j < removed {
        j
    } else {
        j + 1
    }
}

/// Squares grow with their base.
pub proof fn lemma_band_start_monotone(a: int, b: int)
    requires
        0 <= a <= b,
    ensures
        band_start(a) <= band_start(b),
{
    assert(a * a <= b * b) by (nonlinear_arith)
        requires
            0 <= a <= b,
    ;
}

/// Band `k + 1` starts right after the `2k + 1` slots of band `k`.
pub proof fn lemma_band_start_next(k: int)
    ensures
        band_start(k + 1) == band_start(k) + band_len(k),
{
    assert((k + 1) * (k + 1) == k * k + 2 * k + 1) by (nonlinear_arith);
}

/// A position lies in at most one band.
pub proof fn lemma_band_unique(i: int, k: int)
    requires
        in_band(i, k),
    ensures
        band_of(i) == k,
{
    let c = band_of(i);
    assert(in_band(i, c));
    if c < k {
        lemma_band_start_monotone(c + 1, k);
    } else if c > k {
        lemma_band_start_monotone(k + 1, c);
    }
}

/// Every position lies in a band.
pub proof fn lemma_band_exists(i: int)
    requires
        0 <= i,
    ensures
        in_band(i, band_of(i)),
    decreases i,
{
    if i == 0 {
        assert(in_band(0, 0));
    } else {
        lemma_band_exists(i - 1);
        let k = band_of(i - 1);
        lemma_band_start_next(k);
        lemma_band_start_next(k + 1);
        if i < band_start(k + 1) {
            assert(in_band(i, k));
        } else {
            assert(in_band(i, k + 1));
        }
    }
}

/// The cell of a pair of indices below `n` lies among the first `n * n`
/// positions, in the band of the larger index.
pub proof fn lemma_slot_in_range(x: int, y: int, n: int)
    requires
        0 <= x < n,
        0 <= y < n,
    ensures
        0 <= slot(x, y) < n * n,
        in_band(slot(x, y), if x > y { x } else { y }),
{
    let k = if x > y { x } else { y };
    lemma_band_start_next(k);
    lemma_band_start_monotone(0, k);
    lemma_band_start_monotone(k + 1, n);
}

/// `pair_at` undoes `slot`.
pub proof fn lemma_pair_at_slot(x: int, y: int)
    requires
        0 <= x,
        0 <= y,
    ensures
        pair_at(slot(x, y)) == (x, y),
{
    let k = if x > y { x } else { y };
    lemma_slot_in_range(x, y, k + 1);
    lemma_band_unique(slot(x, y), k);
}

/// Distinct pairs have distinct cells.
pub proof fn lemma_slot_injective(x1: int, y1: int, x2: int, y2: int)
    requires
        0 <= x1,
        0 <= y1,
        0 <= x2,
        0 <= y2,
        slot(x1, y1) == slot(x2, y2),
    ensures
        x1 == x2,
        y1 == y2,
{
    lemma_pair_at_slot(x1, y1);
    lemma_pair_at_slot(x2, y2);
}

/// `slot` undoes `pair_at`, and each of the first `n * n` positions holds a
/// pair of indices below `n`.
pub proof fn lemma_slot_pair_at(i: int, n: int)
    requires
        0 <= n,
        0 <= i < n * n,
    ensures
        0 <= pair_at(i).0 < n,
        0 <= pair_at(i).1 < n,
        slot(pair_at(i).0, pair_at(i).1) == i,
{
    lemma_band_exists(i);
    let k = band_of(i);
    lemma_band_start_next(k);
    if k >= n {
        lemma_band_start_monotone(n, k);
    }
}

/// Position `band_start(chunk) + inner` holds `pair_in_band(chunk, inner)`.
pub proof fn lemma_pair_at_offset(chunk: int, inner: int)
    requires
        0 <= chunk,
        0 <= inner < band_len(chunk),
    ensures
        pair_at(band_start(chunk) + inner) == pair_in_band(chunk, inner),
{
    lemma_band_start_next(chunk);
    lemma_band_unique(band_start(chunk) + inner, chunk);
}

/// The pair at offset `inner` of band `chunk` has `node` as one of its ends.
pub open spec fn touches(chunk: int, inner: int, node: int) -> bool {
    pair_in_band(chunk, inner).0 == node || pair_in_band(chunk, inner).1 == node
}

/// Number of cells in front of offset `inner` of band `chunk` that belong to
/// pairs without the node `removed`.
pub open spec fn kept_before(chunk: int, inner: int, removed: int) -> int {
    if chunk < removed {
        band_start(chunk) + inner
    } else if chunk == removed {
        band_start(removed)
    } else {
        band_start(chunk - 1) + inner - (if inner > removed { 1int } else { 0 }) - (if inner
            > chunk + removed { 1int } else { 0 })
    }
}

/// The position, before node `removed` was taken out, of the cell that sits
/// at position `q` afterwards.
pub open spec fn source_slot(q: int, removed: int) -> int {
    slot(shifted(pair_at(q).0, removed), shifted(pair_at(q).1, removed))
}

/// Walking over the cells in storage order, a cell whose pair is without the
/// node `removed` is the next one to keep, and it lands where its renumbered
/// pair belongs; any other cell is passed over.
pub proof fn lemma_kept_step(chunk: int, inner: int, removed: int)
    requires
        0 <= removed,
        0 <= chunk,
        0 <= inner < band_len(chunk),
    ensures
        0 <= kept_before(chunk, inner, removed),
        kept_before(chunk, band_len(chunk), removed) == kept_before(chunk + 1, 0, removed),
        touches(chunk, inner, removed) ==> kept_before(chunk, inner + 1, removed) == kept_before(
            chunk,
            inner,
            removed,
        ),
        !touches(chunk, inner, removed) ==> {
            &&& kept_before(chunk, inner + 1, removed) == kept_before(chunk, inner, removed) + 1
            &&& source_slot(kept_before(chunk, inner, removed), removed) == band_start(chunk)
                + inner
        },
{
    lemma_band_start_next(chunk);
    lemma_band_start_next(chunk - 1);
    lemma_band_start_monotone(0, chunk);
    lemma_band_start_monotone(0, removed);
    if chunk > removed {
        lemma_band_start_monotone(0, chunk - 1);
    }
    if !touches(chunk, inner, removed) {
        let q = kept_before(chunk, inner, removed);
        if chunk < removed {
            lemma_pair_at_offset(chunk, inner);
        } else {
            let moved = inner - (if inner > removed { 1int } else { 0 }) - (if inner > chunk
                + removed { 1int } else { 0 });
            lemma_pair_at_offset(chunk - 1, moved);
        }
    }
}

} // verus!
