//! Dense matrices of ring elements, stored by nalgebra.

use crate::model::MatrixView;
use crate::scalar::wrap;
use nalgebra::DMatrix;
use std::num::Wrapping;
use vstd::prelude::*;

verus! {

/// A dense matrix. The data live in a `nalgebra::DMatrix<Wrapping<i64>>`,
/// which the verifier does not look into: what it knows of a value of this
/// type is what the functions of this file state.
#[verifier::external_body]
pub struct DenseMatrix {
    inner: DMatrix<Wrapping<i64>>,
}

/// The numbers of rows and of columns of the stored matrix.
pub uninterp spec fn dense_shape(m: DenseMatrix) -> (nat, nat);

/// The stored elements by `(row, column)`.
pub uninterp spec fn dense_entries(m: DenseMatrix) -> Map<(int, int), i64>;

/// `DMatrix::from_row_slice` on the elements of `data`: the source fills
/// position `(i, j)` with element `i * ncols + j` of the slice, after it has
/// checked that the slice has `nrows * ncols` elements.
#[verifier::external_body]
fn raw_from_row_slice(nrows: usize, ncols: usize, data: &[i64]) -> (m: DenseMatrix)
    requires
        data@.len() == nrows * ncols,
    ensures
        dense_shape(m) == (nrows as nat, ncols as nat),
        forall|i: int, j: int|
            0 <= i < nrows && 0 <= j < ncols ==> #[trigger] dense_entries(m)[(i, j)] == data@[i
                * ncols + j],
{
    let elements: Vec<Wrapping<i64>> = data.iter().map(|v| Wrapping(*v)).collect();
    DenseMatrix { inner: DMatrix::from_row_slice(nrows, ncols, &elements) }
}

/// `Matrix::nrows`.
#[verifier::external_body]
fn raw_nrows(m: &DenseMatrix) -> (n: usize)
    ensures
        n == dense_shape(*m).0,
{
    m.inner.nrows()
}

/// `Matrix::ncols`.
#[verifier::external_body]
fn raw_ncols(m: &DenseMatrix) -> (n: usize)
    ensures
        n == dense_shape(*m).1,
{
    m.inner.ncols()
}

/// Indexing by `(row, column)`, which the source refuses outside the shape.
#[verifier::external_body]
fn raw_get(m: &DenseMatrix, i: usize, j: usize) -> (v: i64)
    requires
        i < dense_shape(*m).0,
        j < dense_shape(*m).1,
    ensures
        v == dense_entries(*m)[(i as int, j as int)],
{
    m.inner[(i, j)].0
}

/// Assignment through mutable indexing by `(row, column)`: one element
/// changes, the shape and the other elements stay.
#[verifier::external_body]
fn raw_set(m: &mut DenseMatrix, i: usize, j: usize, v: i64)
    requires
        i < dense_shape(*old(m)).0,
        j < dense_shape(*old(m)).1,
    ensures
        dense_shape(*final(m)) == dense_shape(*old(m)),
        forall|r: int, c: int|
            0 <= r < dense_shape(*old(m)).0 && 0 <= c < dense_shape(*old(m)).1
                ==> #[trigger] dense_entries(*final(m))[(r, c)] == (if r == i && c == j {
                v
            } else {
                dense_entries(*old(m))[(r, c)]
            }),
{
    m.inner[(i, j)] = Wrapping(v);
}

/// `matrix *= scalar`: the source multiplies every element by the scalar in
/// place, element on the left, which for `Wrapping<i64>` is the wrapping
/// product.
#[verifier::external_body]
fn raw_scale(m: &mut DenseMatrix, factor: i64)
    ensures
        dense_shape(*final(m)) == dense_shape(*old(m)),
        forall|r: int, c: int|
            0 <= r < dense_shape(*old(m)).0 && 0 <= c < dense_shape(*old(m)).1
                ==> #[trigger] dense_entries(*final(m))[(r, c)] == wrap(
                dense_entries(*old(m))[(r, c)] * factor,
            ),
{
    m.inner *= Wrapping(factor);
}

impl View for DenseMatrix {
    type V = MatrixView;

    open spec fn view(&self) -> MatrixView {
        MatrixView {
            nrows: dense_shape(*self).0,
            ncols: dense_shape(*self).1,
            entries: Map::new(
                |p: (int, int)|
                    0 <= p.0 < dense_shape(*self).0 && 0 <= p.1 < dense_shape(*self).1,
                |p: (int, int)| dense_entries(*self)[p],
            ),
        }
    }
}

impl DenseMatrix {
    /// The number of rows.
    pub open spec fn spec_nrows(&self) -> nat {
        dense_shape(*self).0
    }

    /// The number of columns.
    pub open spec fn spec_ncols(&self) -> nat {
        dense_shape(*self).1
    }

    /// The element at `(i, j)`, for a position inside the shape.
    pub open spec fn spec_at(&self, i: int, j: int) -> i64 {
        dense_entries(*self)[(i, j)]
    }

    /// The view of a dense matrix stores exactly the positions of its shape.
    pub proof fn lemma_view_is_dense(&self)
        ensures
            self@.is_dense(),
            self@.in_shape(),
            forall|i: int, j: int|
                0 <= i < self.spec_nrows() && 0 <= j < self.spec_ncols() ==> #[trigger] self@.at(
                    i,
                    j,
                ) == self.spec_at(i, j),
    {
    }

    /// Makes a matrix of `nrows * ncols` elements given row by row; `None`
    /// where the slice has another length.
    pub fn from_row_slice(nrows: usize, ncols: usize, data: &[i64]) -> (r: Option<DenseMatrix>)
        ensures
            r.is_some() <==> data@.len() == nrows * ncols,
            r matches Some(m) ==> {
                &&& m.spec_nrows() == nrows
                &&& m.spec_ncols() == ncols
                &&& forall|i: int, j: int|
                    0 <= i < nrows && 0 <= j < ncols ==> #[trigger] m.spec_at(i, j) == data@[i
                        * ncols + j]
            },
    {
        let given = data.len();
        match nrows.checked_mul(ncols) {
            Some(len) => {
                if given == len {
                    Some(raw_from_row_slice(nrows, ncols, data))
                } else {
                    None
                }
            },
            None => None,
        }
    }

    /// The number of rows.
    pub fn nrows(&self) -> (n: usize)
        ensures
            n == self.spec_nrows(),
    {
        raw_nrows(self)
    }

    /// The number of columns.
    pub fn ncols(&self) -> (n: usize)
        ensures
            n == self.spec_ncols(),
    {
        raw_ncols(self)
    }

    /// Reads the element at `(i, j)`.
    pub fn get(&self, i: usize, j: usize) -> (v: i64)
        requires
            i < self.spec_nrows(),
            j < self.spec_ncols(),
        ensures
            v == self.spec_at(i as int, j as int),
    {
        raw_get(self, i, j)
    }

    /// Overwrites the element at `(i, j)`.
    pub fn set(&mut self, i: usize, j: usize, v: i64)
        requires
            i < old(self).spec_nrows(),
            j < old(self).spec_ncols(),
        ensures
            final(self).spec_nrows() == old(self).spec_nrows(),
            final(self).spec_ncols() == old(self).spec_ncols(),
            forall|r: int, c: int|
                0 <= r < old(self).spec_nrows() && 0 <= c < old(self).spec_ncols()
                    ==> #[trigger] final(self).spec_at(r, c) == (if r == i && c == j {
                    v
                } else {
                    old(self).spec_at(r, c)
                }),
    {
        raw_set(self, i, j, v);
    }

    /// Multiplies every element by `factor`, in the ring.
    pub fn scale(&mut self, factor: i64)
        ensures
            final(self).spec_nrows() == old(self).spec_nrows(),
            final(self).spec_ncols() == old(self).spec_ncols(),
            forall|r: int, c: int|
                0 <= r < old(self).spec_nrows() && 0 <= c < old(self).spec_ncols()
                    ==> #[trigger] final(self).spec_at(r, c) == wrap(
                    old(self).spec_at(r, c) * factor,
                ),
    {
        raw_scale(self, factor);
    }
}

} // verus!
