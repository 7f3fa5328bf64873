//! The dense Hough vote store, kept in nalgebra's `DMatrix<u32>` exactly as
//! the pipeline always held it. Verus cannot take the matrix type's own
//! generic bounds, so the matrix lives in the private field of an opaque
//! struct; Verus sees it through two named projections — the contents laid
//! out row-major, and the row count — and through three trusted wrappers
//! over the calls the voting pass makes.

use vstd::prelude::*;

verus! {

/// An owned `nalgebra::DMatrix<u32>` of vote counts, opaque to Verus.
#[verifier::external_body]
pub struct VoteMatrix {
    mat: nalgebra::DMatrix<u32>,
}

/// The components of a vote matrix, arranged row-major: the vote of bin
/// `(row, col)` in a matrix of `c` columns stands at index `row * c + col`.
pub uninterp spec fn acc_cells(m: VoteMatrix) -> Seq<u32>;

/// The number of rows the matrix was built with.
pub uninterp spec fn acc_rows(m: VoteMatrix) -> nat;

/// Relies on `DMatrix::zeros(nrows, ncols)`: a matrix of the requested
/// shape with every component 0.
#[verifier::external_body]
pub(crate) fn acc_zeros(rows: usize, cols: usize) -> (m: VoteMatrix)
    requires
        1 <= rows,
        1 <= cols,
        rows * cols <= usize::MAX,
    ensures
        acc_rows(m) == rows,
        acc_cells(m).len() == rows * cols,
        forall|i: int| 0 <= i < acc_cells(m).len() ==> acc_cells(m)[i] == 0,
{
    VoteMatrix { mat: nalgebra::DMatrix::zeros(rows, cols) }
}

/// Relies on the `Index` impl of `Matrix` for `(row, column)` pairs: the
/// component at that position, unchanged.
#[verifier::external_body]
pub(crate) fn acc_get(m: &VoteMatrix, row: usize, col: usize, cols: usize) -> (v: u32)
    requires
        acc_cells(*m).len() == acc_rows(*m) * cols,
        row < acc_rows(*m),
        col < cols,
    ensures
        v == acc_cells(*m)[row * cols + col],
{
    m.mat[(row, col)]
}

/// Relies on the `IndexMut` impl of `Matrix` for `(row, column)` pairs: the
/// component at that position becomes `v` and no other component moves.
#[verifier::external_body]
pub(crate) fn acc_set(m: &mut VoteMatrix, row: usize, col: usize, cols: usize, v: u32)
    requires
        acc_cells(*old(m)).len() == acc_rows(*old(m)) * cols,
        row < acc_rows(*old(m)),
        col < cols,
    ensures
        acc_rows(*final(m)) == acc_rows(*old(m)),
        acc_cells(*final(m)) == acc_cells(*old(m)).update(row * cols + col, v),
{
    m.mat[(row, col)] = v;
}

} // verus!
