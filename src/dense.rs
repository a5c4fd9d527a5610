use vstd::prelude::*;
use nalgebra::{DMatrix, DVector};

verus! {

/// A dense integer matrix, stored by nalgebra.
#[verifier::external_body]
pub struct DenseMatrix {
    inner: DMatrix<i32>,
}

/// A dense integer column vector, stored by nalgebra.
#[verifier::external_body]
pub struct DenseVector {
    inner: DVector<i32>,
}

/// The entries of a matrix, row by row.
pub uninterp spec fn matrix_rows(m: DenseMatrix) -> Seq<Seq<i32>>;

/// The entries of a column vector, top to bottom.
pub uninterp spec fn vector_entries(v: DenseVector) -> Seq<i32>;

impl View for DenseMatrix {
    type V = Seq<Seq<i32>>;

    open spec fn view(&self) -> Seq<Seq<i32>> {
        matrix_rows(*self)
    }
}

impl View for DenseVector {
    type V = Seq<i32>;

    open spec fn view(&self) -> Seq<i32> {
        vector_entries(*self)
    }
}

/// `rows` has `nrows` rows of `ncols` entries each.
pub open spec fn has_shape(rows: Seq<Seq<i32>>, nrows: int, ncols: int) -> bool {
    rows.len() == nrows && forall|i: int| 0 <= i < nrows ==> #[trigger] rows[i].len() == ncols
}

/// Relies on nalgebra's `DMatrix::from_row_slice`, which panics unless the
/// slice holds `nrows * ncols` entries, and reads them row by row.
#[verifier::external_body]
fn nalgebra_from_row_slice(nrows: usize, ncols: usize, data: &[i32]) -> (m: DenseMatrix)
    requires
        data@.len() == nrows * ncols,
    ensures
        matrix_rows(m).len() == nrows,
        forall|i: int|
            0 <= i < nrows ==> #[trigger] matrix_rows(m)[i] == data@.subrange(
                i * ncols,
                i * ncols + ncols,
            ),
{
    DenseMatrix { inner: DMatrix::from_row_slice(nrows, ncols, data) }
}

/// Relies on nalgebra's `Matrix::nrows`.
#[verifier::external_body]
fn nalgebra_nrows(m: &DenseMatrix) -> (n: usize)
    ensures
        n == matrix_rows(*m).len(),
{
    m.inner.nrows()
}

/// Relies on nalgebra's `Matrix::ncols`: every row of a matrix has this length.
#[verifier::external_body]
fn nalgebra_ncols(m: &DenseMatrix) -> (n: usize)
    ensures
        forall|i: int| 0 <= i < matrix_rows(*m).len() ==> #[trigger] matrix_rows(*m)[i].len() == n,
{
    m.inner.ncols()
}

/// Relies on nalgebra's `Index<(usize, usize)>` for matrices, which panics
/// out of bounds.
#[verifier::external_body]
fn nalgebra_entry(m: &DenseMatrix, r: usize, c: usize) -> (v: i32)
    requires
        r < matrix_rows(*m).len(),
        c < matrix_rows(*m)[r as int].len(),
    ensures
        v == matrix_rows(*m)[r as int][c as int],
{
    m.inner[(r, c)]
}

/// Relies on nalgebra's `DVector::from_vec`: the vector holds the entries in order.
#[verifier::external_body]
fn nalgebra_from_vec(data: Vec<i32>) -> (v: DenseVector)
    ensures
        vector_entries(v) == data@,
{
    DenseVector { inner: DVector::from_vec(data) }
}

/// Relies on nalgebra's `Matrix::len`: the number of entries of a vector.
#[verifier::external_body]
fn nalgebra_len(v: &DenseVector) -> (n: usize)
    ensures
        n == vector_entries(*v).len(),
{
    v.inner.len()
}

/// Relies on nalgebra's `Index<usize>` for vectors, which panics out of bounds.
#[verifier::external_body]
fn nalgebra_get(v: &DenseVector, i: usize) -> (x: i32)
    requires
        i < vector_entries(*v).len(),
    ensures
        x == vector_entries(*v)[i as int],
{
    v.inner[i]
}

impl DenseMatrix {
    /// The `nrows` by `ncols` matrix whose entries `data` lists row by row.
    pub fn from_row_slice(nrows: usize, ncols: usize, data: &[i32]) -> (m: DenseMatrix)
        requires
            data@.len() == nrows * ncols,
        ensures
            has_shape(m@, nrows as int, ncols as int),
            forall|i: int, j: int|
                0 <= i < nrows && 0 <= j < ncols ==> #[trigger] m@[i][j] == data@[i * ncols + j],
    {
        let m = nalgebra_from_row_slice(nrows, ncols, data);
        proof {
            assert forall|i: int| 0 <= i < nrows implies 0 <= #[trigger] (i * ncols) && i * ncols
                + ncols <= nrows * ncols by {
                assert(0 <= i * ncols && i * ncols + ncols <= nrows * ncols) by (nonlinear_arith)
                    requires
                        0 <= i < nrows,
                        0 <= ncols,
                ;
            }
            assert forall|i: int| 0 <= i < nrows implies #[trigger] m@[i].len() == ncols by {
                assert(m@[i] == data@.subrange(i * ncols, i * ncols + ncols));
            }
            assert forall|i: int, j: int| 0 <= i < nrows && 0 <= j < ncols implies #[trigger] m@[i][j]
                == data@[i * ncols + j] by {
                assert(m@[i] == data@.subrange(i * ncols, i * ncols + ncols));
            }
        }
        m
    }

    /// The `nrows` by `ncols` matrix whose entries `data` lists row by row, or
    /// `None` when `data` does not hold exactly `nrows * ncols` entries.
    pub fn try_from_row_slice(nrows: usize, ncols: usize, data: &[i32]) -> (r: Option<DenseMatrix>)
        ensures
            r is Some <==> data@.len() == nrows * ncols,
            r matches Some(m) ==> has_shape(m@, nrows as int, ncols as int) && forall|i: int, j: int|
                0 <= i < nrows && 0 <= j < ncols ==> #[trigger] m@[i][j] == data@[i * ncols + j],
    {
        let total = nrows.checked_mul(ncols);
        match total {
            Some(n) => {
                if n != data.len() {
                    return None;
                }
            },
            None => {
                let len = data.len();
                proof {
                    assert(len <= usize::MAX);
                }
                return None;
            },
        }
        Some(DenseMatrix::from_row_slice(nrows, ncols, data))
    }

    /// The number of rows.
    pub fn nrows(&self) -> (n: usize)
        ensures
            n == self@.len(),
    {
        nalgebra_nrows(self)
    }

    /// The number of columns (the length of every row).
    pub fn ncols(&self) -> (n: usize)
        ensures
            forall|i: int| 0 <= i < self@.len() ==> #[trigger] self@[i].len() == n,
    {
        nalgebra_ncols(self)
    }

    /// The entry in row `r` and column `c`.
    pub fn entry(&self, r: usize, c: usize) -> (v: i32)
        requires
            r < self@.len(),
            c < self@[r as int].len(),
        ensures
            v == self@[r as int][c as int],
    {
        nalgebra_entry(self, r, c)
    }
}

impl DenseVector {
    /// The vector whose entries are `data`, in order.
    pub fn from_vec(data: Vec<i32>) -> (v: DenseVector)
        ensures
            v@ == data@,
    {
        nalgebra_from_vec(data)
    }

    /// The number of entries.
    pub fn len(&self) -> (n: usize)
        ensures
            n == self@.len(),
    {
        nalgebra_len(self)
    }

    /// The entry at `i`.
    pub fn get(&self, i: usize) -> (x: i32)
        requires
            i < self@.len(),
        ensures
            x == self@[i as int],
    {
        nalgebra_get(self, i)
    }
}

} // verus!
