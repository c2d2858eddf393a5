//! Two-dimensional matrices of fixed-point values, kept in an `ndarray`
//! `Array2<i64>`.
//!
//! Verus sees a [`Matrix`] through two names: `dims_of`, its shape
//! `(rows, cols)`, and `cells_of`, its elements in row-major order.
use vstd::prelude::*;
use ndarray::Array2;

verus! {

/// A `rows` by `cols` matrix of `i64` values.
#[verifier::external_body]
pub struct Matrix {
    inner: Array2<i64>,
}

/// The elements of a matrix, row by row.
pub uninterp spec fn cells_of(m: Matrix) -> Seq<i64>;

/// The shape `(rows, cols)` of a matrix.
pub uninterp spec fn dims_of(m: Matrix) -> (nat, nat);

pub open spec fn rows(m: Matrix) -> nat {
    dims_of(m).0
}

pub open spec fn cols(m: Matrix) -> nat {
    dims_of(m).1
}

/// Element `(i, j)` of a matrix.
pub open spec fn at(m: Matrix, i: int, j: int) -> i64 {
    cells_of(m)[i * cols(m) + j]
}

/// Row `i` of a matrix.
pub open spec fn row(m: Matrix, i: int) -> Seq<i64> {
    Seq::new(cols(m), |j: int| at(m, i, j))
}

/// A matrix whose element list matches its shape.
pub open spec fn well_shaped(m: Matrix) -> bool {
    &&& cells_of(m).len() == rows(m) * cols(m)
    &&& rows(m) * cols(m) <= isize::MAX
    &&& rows(m) <= isize::MAX
    &&& cols(m) <= isize::MAX
}

/// Relies on `ArrayBase::dim`: the shape of the array; and on the array
/// invariant of `ndarray` that an array holds one element per index pair and
/// at most `isize::MAX` elements. Every array here is made by `array_zeros`,
/// whose axis lengths are at most `isize::MAX`.
#[verifier::external_body]
fn array_dim(m: &Matrix) -> (r: (usize, usize))
    ensures
        r.0 == rows(*m),
        r.1 == cols(*m),
        cells_of(*m).len() == r.0 * r.1,
        r.0 * r.1 <= isize::MAX,
        r.0 <= isize::MAX,
        r.1 <= isize::MAX,
{
    m.inner.dim()
}

/// Relies on `ArrayBase::zeros`: a `rows` by `cols` array of zeros. It panics
/// when the product of the nonzero axis lengths overflows `isize`, which
/// `requires` excludes.
#[verifier::external_body]
fn array_zeros(rows: usize, cols: usize) -> (r: Matrix)
    requires
        rows * cols <= isize::MAX,
        rows <= isize::MAX,
        cols <= isize::MAX,
    ensures
        dims_of(r) == (rows as nat, cols as nat),
        cells_of(r) == Seq::new((rows * cols) as nat, |k: int| 0i64),
{
    Matrix { inner: Array2::zeros((rows, cols)) }
}

/// Relies on indexing an `Array2` by `[i, j]`: the element at row `i`,
/// column `j`. It panics out of bounds, which `requires` excludes.
#[verifier::external_body]
fn array_get(m: &Matrix, i: usize, j: usize) -> (r: i64)
    requires
        i < rows(*m),
        j < cols(*m),
    ensures
        r == at(*m, i as int, j as int),
{
    m.inner[[i, j]]
}

/// Relies on mutable indexing of an `Array2` by `[i, j]`: it replaces the
/// element at row `i`, column `j` and nothing else. It panics out of bounds,
/// which `requires` excludes.
#[verifier::external_body]
fn array_set(m: &mut Matrix, i: usize, j: usize, v: i64)
    requires
        i < rows(*old(m)),
        j < cols(*old(m)),
    ensures
        dims_of(*final(m)) == dims_of(*old(m)),
        cells_of(*final(m)) == cells_of(*old(m)).update(i * cols(*old(m)) + j, v),
{
    m.inner[[i, j]] = v;
}

/// Index pairs inside a `rows` by `cols` shape land on distinct row-major
/// positions below `rows * cols`.
pub proof fn lemma_index(i: int, j: int, i2: int, j2: int, rows: int, cols: int)
    requires
        0 <= i < rows,
        0 <= j < cols,
        0 <= i2 < rows,
        0 <= j2 < cols,
    ensures
        0 <= i * cols + j < rows * cols,
        (i * cols + j == i2 * cols + j2) ==> (i == i2 && j == j2),
{
    assert(0 <= i * cols + j < rows * cols) by (nonlinear_arith)
        requires
            0 <= i < rows,
            0 <= j < cols,
    ;
    if i * cols + j == i2 * cols + j2 {
        if i < i2 {
            assert(i * cols + j < i2 * cols + j2) by (nonlinear_arith)
                requires
                    i < i2,
                    0 <= j < cols,
                    0 <= j2,
            ;
        } else if i2 < i {
            assert(i2 * cols + j2 < i * cols + j) by (nonlinear_arith)
                requires
                    i2 < i,
                    0 <= j2 < cols,
                    0 <= j,
            ;
        }
    }
}

impl Matrix {
    /// A `rows` by `cols` matrix of zeros.
    pub fn zeros(rows: usize, cols: usize) -> (r: Matrix)
        requires
            rows * cols <= isize::MAX,
            rows <= isize::MAX,
            cols <= isize::MAX,
        ensures
            dims_of(r) == (rows as nat, cols as nat),
            well_shaped(r),
            forall|i: int, j: int| 0 <= i < rows && 0 <= j < cols ==> at(r, i, j) == 0,
    {
        let r = array_zeros(rows, cols);
        assert forall|i: int, j: int| 0 <= i < rows && 0 <= j < cols implies at(r, i, j) == 0 by {
            lemma_index(i, j, i, j, rows as int, cols as int);
        }
        r
    }

    /// The matrix whose row `i` is `rows[i]`, when each of them has `cols`
    /// elements and the row count, `cols` and the element count all fit in
    /// `isize`; `None` otherwise.
    pub fn from_rows(rows: &Vec<Vec<i64>>, cols: usize) -> (r: Option<Matrix>)
        ensures
            r is Some <==> (forall|i: int| 0 <= i < rows@.len() ==> (#[trigger] rows@[i])@.len() == cols)
                && rows@.len() * cols <= isize::MAX && rows@.len() <= isize::MAX && cols
                <= isize::MAX,
            r matches Some(m) ==> dims_of(m) == (rows@.len(), cols as nat) && well_shaped(m) && (
            forall|i: int, j: int|
                0 <= i < rows@.len() && 0 <= j < cols ==> #[trigger] at(m, i, j) == rows@[i]@[j]),
    {
        let n = rows.len();
        if n > isize::MAX as usize || cols > isize::MAX as usize {
            return None;
        }
        if n > 0 && cols > isize::MAX as usize / n {
            proof {
                assert(n * cols > isize::MAX) by (nonlinear_arith)
                    requires
                        n > 0,
                        cols > isize::MAX as usize / n,
                ;
            }
            return None;
        }
        proof {
            if n > 0 {
                assert(n * cols <= isize::MAX) by (nonlinear_arith)
                    requires
                        n > 0,
                        cols <= isize::MAX as usize / n,
                ;
            }
        }
        let mut k: usize = 0;
        while k < n
            invariant
                0 <= k <= n,
                n == rows@.len(),
                forall|i: int| 0 <= i < k ==> (#[trigger] rows@[i])@.len() == cols,
            decreases n - k,
        {
            if rows[k].len() != cols {
                return None;
            }
            k += 1;
        }
        let mut m = Matrix::zeros(n, cols);
        let mut i: usize = 0;
        while i < n
            invariant
                0 <= i <= n,
                n == rows@.len(),
                forall|a: int| 0 <= a < n ==> (#[trigger] rows@[a])@.len() == cols,
                dims_of(m) == (n as nat, cols as nat),
                well_shaped(m),
                forall|a: int, b: int|
                    0 <= a < i && 0 <= b < cols ==> #[trigger] at(m, a, b) == rows@[a]@[b],
            decreases n - i,
        {
            let mut j: usize = 0;
            while j < cols
                invariant
                    0 <= i < n,
                    0 <= j <= cols,
                    n == rows@.len(),
                    forall|a: int| 0 <= a < n ==> (#[trigger] rows@[a])@.len() == cols,
                    dims_of(m) == (n as nat, cols as nat),
                    well_shaped(m),
                    forall|a: int, b: int|
                        0 <= a < i && 0 <= b < cols ==> #[trigger] at(m, a, b) == rows@[a]@[b],
                    forall|b: int| 0 <= b < j ==> #[trigger] at(m, i as int, b) == rows@[i as int]@[b],
                decreases cols - j,
            {
                m.set(i, j, rows[i][j]);
                j += 1;
            }
            i += 1;
        }
        Some(m)
    }

    /// The rows of the matrix, each as a vector.
    pub fn to_rows(&self) -> (r: Vec<Vec<i64>>)
        ensures
            r@.len() == rows(*self),
            forall|i: int| 0 <= i < r@.len() ==> (#[trigger] r@[i])@ == row(*self, i),
    {
        let (n, c) = self.dim();
        let mut out: Vec<Vec<i64>> = Vec::new();
        let mut i: usize = 0;
        while i < n
            invariant
                0 <= i <= n,
                n == rows(*self),
                c == cols(*self),
                out@.len() == i,
                forall|a: int| 0 <= a < i ==> (#[trigger] out@[a])@ == row(*self, a),
            decreases n - i,
        {
            let mut line: Vec<i64> = Vec::new();
            let mut j: usize = 0;
            while j < c
                invariant
                    0 <= i < n,
                    0 <= j <= c,
                    n == rows(*self),
                    c == cols(*self),
                    line@.len() == j,
                    forall|b: int| 0 <= b < j ==> #[trigger] line@[b] == at(*self, i as int, b),
                decreases c - j,
            {
                line.push(self.get(i, j));
                j += 1;
            }
            assert(line@ =~= row(*self, i as int));
            out.push(line);
            i += 1;
        }
        out
    }

    /// The shape `(rows, cols)`.
    pub fn dim(&self) -> (r: (usize, usize))
        ensures
            r.0 == rows(*self),
            r.1 == cols(*self),
            well_shaped(*self),
    {
        array_dim(self)
    }

    /// The element at row `i`, column `j`.
    pub fn get(&self, i: usize, j: usize) -> (r: i64)
        requires
            i < rows(*self),
            j < cols(*self),
        ensures
            r == at(*self, i as int, j as int),
    {
        array_get(self, i, j)
    }

    /// Replaces the element at row `i`, column `j` by `v`.
    pub fn set(&mut self, i: usize, j: usize, v: i64)
        requires
            i < rows(*old(self)),
            j < cols(*old(self)),
        ensures
            dims_of(*final(self)) == dims_of(*old(self)),
            well_shaped(*final(self)),
            at(*final(self), i as int, j as int) == v,
            forall|a: int, b: int|
                0 <= a < rows(*old(self)) && 0 <= b < cols(*old(self)) && (a != i || b != j)
                    ==> #[trigger] at(*final(self), a, b) == at(*old(self), a, b),
    {
        let _ = array_dim(self);
        array_set(self, i, j, v);
        proof {
            lemma_index(i as int, j as int, i as int, j as int, rows(*old(self)) as int, cols(*old(self)) as int);
            assert forall|a: int, b: int|
                0 <= a < rows(*old(self)) && 0 <= b < cols(*old(self)) && (a != i || b != j)
                    implies #[trigger] at(*self, a, b) == at(*old(self), a, b) by {
                lemma_index(a, b, i as int, j as int, rows(*old(self)) as int, cols(*old(self)) as int);
            }
        }
    }
}

} // verus!
