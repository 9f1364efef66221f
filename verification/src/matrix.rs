use vstd::arithmetic::mul::{lemma_mul_is_commutative, lemma_mul_unary_negation, lemma_mul_upper_bound};
use vstd::prelude::*;

use crate::error::NumError;
use crate::laws::{lemma_mul_eye_left, lemma_pow_add, lemma_pow_dims};
use crate::model::{
    add_fits, cof_sign, cofactor_fits, col_seq, det_expand, det_fits, det_sign, diag_seq,
    div_fits, div_trunc, dot_fits, dot_int, expand_fits, grid_add, grid_adjugate, grid_cofactor,
    grid_det, grid_div,
    grid_eye, grid_filled, grid_minor, grid_mul, grid_neg, grid_scale, grid_sub, grid_trace,
    grid_pow, grid_transpose, in_i64, lemma_expand_fits_mono, lemma_sum_take_all,
    lemma_sum_take_step, mul_fits, neg_fits, pow_fits, prod_seq, same_shape, scale_fits,
    sub_fits, sum_int, trace_fits, wf_grid, Grid,
};

verus! {

/// A dense matrix of `i64` scalars in row-major storage.
///
/// Logical element `(i, j)` lives at `data[i * cols + j]`. A well-formed
/// matrix has at least one row and one column, and `data.len()` equals
/// `rows * cols`; every constructor establishes this and every operation
/// preserves it. The view of a matrix is the [`Grid`] of its entries.
#[derive(Clone, Debug, PartialEq)]
pub struct Mat {
    data: Vec<i64>,
    rows: usize,
    cols: usize,
}

impl View for Mat {
    type V = Grid;

    closed spec fn view(&self) -> Grid {
        Seq::new(
            self.rows as nat,
            |i: int|
                Seq::new(
                    self.cols as nat,
                    |j: int| self.data@[i * (self.cols as int) + j] as int,
                ),
        )
    }
}

/// Position `(i, j)` of an `r` by `c` row-major layout is a valid flat
/// index below `r * c`.
proof fn lemma_flat_index(r: int, c: int, i: int, j: int)
    by (nonlinear_arith)
    requires
        0 <= i < r,
        0 <= j < c,
    ensures
        0 <= i * c + j,
        i * c + j < r * c,
{
}

/// Row-major flat indexing is injective on positions with a valid column.
proof fn lemma_flat_inj(c: int, i: int, j: int, p: int, q: int)
    by (nonlinear_arith)
    requires
        0 <= j < c,
        0 <= q < c,
        i * c + j == p * c + q,
    ensures
        i == p,
        j == q,
{
}

impl Mat {
    /// The storage invariant of a matrix.
    pub closed spec fn wf(self) -> bool {
        &&& self.rows >= 1
        &&& self.cols >= 1
        &&& self.data.len() == self.rows * self.cols
    }

    /// The number of rows.
    pub open spec fn nrows(self) -> nat {
        self@.len()
    }

    /// The number of columns.
    pub open spec fn ncols(self) -> nat {
        self@[0].len()
    }

    /// A well-formed matrix views to a well-formed grid, and every entry
    /// of the view fits in `i64`.
    pub proof fn lemma_view(self)
        requires
            self.wf(),
        ensures
            wf_grid(self@),
            forall|i: int, j: int|
                0 <= i < self.nrows() && 0 <= j < self.ncols() ==> in_i64(#[trigger] self@[i][j]),
    {
        assert forall|i: int, j: int|
            0 <= i < self.nrows() && 0 <= j < self.ncols() implies in_i64(
            #[trigger] self@[i][j],
        ) by {
            lemma_flat_index(self.rows as int, self.cols as int, i, j);
        }
    }

    /// The number of stored scalars; private, an observation that the
    /// element count fits in `usize`.
    fn alloc_bound(&self) -> (r: usize)
        requires
            self.wf(),
        ensures
            r == self.nrows() * self.ncols(),
    {
        self.data.len()
    }

    /// Reads element `(i, j)`; private, for callers that have already
    /// checked the bounds.
    fn at(&self, i: usize, j: usize) -> (r: i64)
        requires
            self.wf(),
            i < self.nrows(),
            j < self.ncols(),
        ensures
            r as int == self@[i as int][j as int],
    {
        proof {
            lemma_flat_index(self.rows as int, self.cols as int, i as int, j as int);
        }
        self.data[i * self.cols + j]
    }

    /// Writes element `(i, j)`; private, for callers that have already
    /// checked the bounds.
    fn put(&mut self, i: usize, j: usize, v: i64)
        requires
            old(self).wf(),
            i < old(self).nrows(),
            j < old(self).ncols(),
        ensures
            final(self).wf(),
            final(self).nrows() == old(self).nrows(),
            final(self).ncols() == old(self).ncols(),
            final(self)@[i as int][j as int] == v as int,
            forall|p: int, q: int|
                0 <= p < old(self).nrows() && 0 <= q < old(self).ncols() && !(p == i && q == j)
                    ==> final(self)@[p][q] == old(self)@[p][q],
    {
        proof {
            lemma_flat_index(self.rows as int, self.cols as int, i as int, j as int);
        }
        let idx: usize = i * self.cols + j;
        self.data.set(idx, v);
        proof {
            assert forall|p: int, q: int|
                0 <= p < old(self).nrows() && 0 <= q < old(self).ncols() && !(p == i && q == j)
                    implies final(self)@[p][q] == old(self)@[p][q] by {
                lemma_flat_index(self.rows as int, self.cols as int, p, q);
                if p * (self.cols as int) + q == i * (self.cols as int) + j {
                    lemma_flat_inj(self.cols as int, p, q, i as int, j as int);
                }
            }
        }
    }

    /// Builds the matrix of the given dimensions holding `value`
    /// everywhere. Fails with `InvalidShape` on zero rows or columns, and
    /// with `Overflow` when `rows * cols` exceeds the address space.
    pub fn filled(rows: usize, cols: usize, value: i64) -> (r: Result<Mat, NumError>)
        ensures
            match r {
                Ok(m) => {
                    &&& rows >= 1 && cols >= 1 && rows * cols <= usize::MAX
                    &&& m.wf()
                    &&& m@ == grid_filled(rows as nat, cols as nat, value as int)
                },
                Err(e) => {
                    ||| e == NumError::InvalidShape && (rows == 0 || cols == 0)
                    ||| e == NumError::Overflow && rows >= 1 && cols >= 1 && rows * cols
                        > usize::MAX
                },
            },
    {
        if rows == 0 || cols == 0 {
            return Err(NumError::InvalidShape);
        }
        let n: usize = match rows.checked_mul(cols) {
            Some(n) => n,
            None => {
                return Err(NumError::Overflow);
            },
        };
        let mut data: Vec<i64> = Vec::new();
        let mut k: usize = 0;
        while k < n
            invariant
                k <= n,
                data.len() == k,
                forall|t: int| 0 <= t < k ==> data@[t] == value,
            decreases n - k,
        {
            data.push(value);
            k = k + 1;
        }
        let m = Mat { data, rows, cols };
        proof {
            assert forall|i: int| 0 <= i < rows implies m@[i] =~= grid_filled(
                rows as nat,
                cols as nat,
                value as int,
            )[i] by {
                assert forall|j: int| 0 <= j < cols implies m@[i][j] == value as int by {
                    lemma_flat_index(rows as int, cols as int, i, j);
                }
            }
            assert(m@ =~= grid_filled(rows as nat, cols as nat, value as int));
        }
        Ok(m)
    }

    /// Builds the zero matrix of the given dimensions. Fails exactly as
    /// [`Mat::filled`] does.
    pub fn new(rows: usize, cols: usize) -> (r: Result<Mat, NumError>)
        ensures
            match r {
                Ok(m) => {
                    &&& rows >= 1 && cols >= 1 && rows * cols <= usize::MAX
                    &&& m.wf()
                    &&& m@ == grid_filled(rows as nat, cols as nat, 0)
                },
                Err(e) => {
                    ||| e == NumError::InvalidShape && (rows == 0 || cols == 0)
                    ||| e == NumError::Overflow && rows >= 1 && cols >= 1 && rows * cols
                        > usize::MAX
                },
            },
    {
        Mat::filled(rows, cols, 0)
    }

    /// Builds the zero matrix of the given dimensions. Fails exactly as
    /// [`Mat::filled`] does.
    pub fn zeros(rows: usize, cols: usize) -> (r: Result<Mat, NumError>)
        ensures
            match r {
                Ok(m) => {
                    &&& rows >= 1 && cols >= 1 && rows * cols <= usize::MAX
                    &&& m.wf()
                    &&& m@ == grid_filled(rows as nat, cols as nat, 0)
                },
                Err(e) => {
                    ||| e == NumError::InvalidShape && (rows == 0 || cols == 0)
                    ||| e == NumError::Overflow && rows >= 1 && cols >= 1 && rows * cols
                        > usize::MAX
                },
            },
    {
        Mat::new(rows, cols)
    }

    /// Builds the all-ones matrix of the given dimensions. Fails exactly
    /// as [`Mat::filled`] does.
    pub fn ones(rows: usize, cols: usize) -> (r: Result<Mat, NumError>)
        ensures
            match r {
                Ok(m) => {
                    &&& rows >= 1 && cols >= 1 && rows * cols <= usize::MAX
                    &&& m.wf()
                    &&& m@ == grid_filled(rows as nat, cols as nat, 1)
                },
                Err(e) => {
                    ||| e == NumError::InvalidShape && (rows == 0 || cols == 0)
                    ||| e == NumError::Overflow && rows >= 1 && cols >= 1 && rows * cols
                        > usize::MAX
                },
            },
    {
        Mat::filled(rows, cols, 1)
    }

    /// Builds a matrix of the given dimensions from a row-major sequence
    /// of scalars. Fails with `InvalidShape` on zero rows or columns, and
    /// with `ShapeMismatch` when the length is not `rows * cols`.
    pub fn from_vec(rows: usize, cols: usize, data: Vec<i64>) -> (r: Result<Mat, NumError>)
        ensures
            match r {
                Ok(m) => {
                    &&& rows >= 1 && cols >= 1
                    &&& data@.len() == rows * cols
                    &&& m.wf()
                    &&& m.nrows() == rows && m.ncols() == cols
                    &&& forall|i: int, j: int|
                        0 <= i < rows && 0 <= j < cols ==> #[trigger] m@[i][j] == data@[i * cols
                            + j] as int
                },
                Err(e) => {
                    ||| e == NumError::InvalidShape && (rows == 0 || cols == 0)
                    ||| e == NumError::ShapeMismatch && rows >= 1 && cols >= 1 && data@.len()
                        != rows * cols
                },
            },
    {
        if rows == 0 || cols == 0 {
            return Err(NumError::InvalidShape);
        }
        let l: usize = data.len();
        let matches_len: bool = match rows.checked_mul(cols) {
            Some(n) => n == l,
            None => false,
        };
        if !matches_len {
            return Err(NumError::ShapeMismatch);
        }
        let m = Mat { data, rows, cols };
        Ok(m)
    }

    /// Builds the identity matrix of the given dimension: ones on the
    /// diagonal, zeros elsewhere. Fails with `InvalidShape` on dimension
    /// zero, and with `Overflow` when `size * size` exceeds the address
    /// space.
    pub fn eye(size: usize) -> (r: Result<Mat, NumError>)
        ensures
            match r {
                Ok(m) => {
                    &&& size >= 1 && size * size <= usize::MAX
                    &&& m.wf()
                    &&& m@ == grid_eye(size as nat)
                },
                Err(e) => {
                    ||| e == NumError::InvalidShape && size == 0
                    ||| e == NumError::Overflow && size >= 1 && size * size > usize::MAX
                },
            },
    {
        let mut m = match Mat::zeros(size, size) {
            Ok(m) => m,
            Err(e) => {
                return Err(e);
            },
        };
        let mut i: usize = 0;
        while i < size
            invariant
                i <= size,
                m.wf(),
                m.nrows() == size,
                m.ncols() == size,
                forall|p: int, q: int|
                    0 <= p < size && 0 <= q < size ==> #[trigger] m@[p][q] == (
                    if p == q && p < i {
                        1int
                    } else {
                        0int
                    }),
            decreases size - i,
        {
            m.put(i, i, 1);
            i = i + 1;
        }
        proof {
            assert forall|p: int| 0 <= p < size implies m@[p] =~= grid_eye(size as nat)[p] by {}
            assert(m@ =~= grid_eye(size as nat));
        }
        Ok(m)
    }

    /// The dimensions of the matrix, as `(rows, cols)`.
    pub fn shape(&self) -> (r: (usize, usize))
        requires
            self.wf(),
        ensures
            r.0 == self.nrows(),
            r.1 == self.ncols(),
    {
        (self.rows, self.cols)
    }

    /// Reads element `(i, j)`. Fails with `IndexOutOfBounds` exactly when
    /// an index is outside the dimensions.
    pub fn get(&self, i: usize, j: usize) -> (r: Result<i64, NumError>)
        requires
            self.wf(),
        ensures
            match r {
                Ok(v) => i < self.nrows() && j < self.ncols() && v as int == self@[i as int][j as int],
                Err(e) => e == NumError::IndexOutOfBounds && (i >= self.nrows() || j
                    >= self.ncols()),
            },
    {
        if i >= self.rows || j >= self.cols {
            return Err(NumError::IndexOutOfBounds);
        }
        Ok(self.at(i, j))
    }

    /// Writes element `(i, j)`: the sole mutation entry point. Fails with
    /// `IndexOutOfBounds` exactly when an index is outside the dimensions,
    /// leaving the matrix unchanged; on success only entry `(i, j)`
    /// changes.
    pub fn set(&mut self, i: usize, j: usize, v: i64) -> (r: Result<(), NumError>)
        requires
            old(self).wf(),
        ensures
            final(self).wf(),
            final(self).nrows() == old(self).nrows(),
            final(self).ncols() == old(self).ncols(),
            match r {
                Ok(()) => {
                    &&& i < old(self).nrows() && j < old(self).ncols()
                    &&& final(self)@[i as int][j as int] == v as int
                    &&& forall|p: int, q: int|
                        0 <= p < old(self).nrows() && 0 <= q < old(self).ncols() && !(p == i && q
                            == j) ==> final(self)@[p][q] == old(self)@[p][q]
                },
                Err(e) => {
                    &&& e == NumError::IndexOutOfBounds
                    &&& (i >= old(self).nrows() || j >= old(self).ncols())
                    &&& final(self)@ == old(self)@
                },
            },
    {
        if i >= self.rows || j >= self.cols {
            return Err(NumError::IndexOutOfBounds);
        }
        self.put(i, j, v);
        Ok(())
    }

    /// A fresh matrix with the same dimensions and entries.
    pub fn duplicate(&self) -> (r: Mat)
        requires
            self.wf(),
        ensures
            r.wf(),
            r@ == self@,
    {
        let mut data: Vec<i64> = Vec::new();
        let n: usize = self.data.len();
        let mut k: usize = 0;
        while k < n
            invariant
                k <= n,
                n == self.data.len(),
                data.len() == k,
                forall|t: int| 0 <= t < k ==> data@[t] == self.data@[t],
            decreases n - k,
        {
            data.push(self.data[k]);
            k = k + 1;
        }
        let m = Mat { data, rows: self.rows, cols: self.cols };
        proof {
            assert forall|i: int| 0 <= i < self.rows implies m@[i] =~= self@[i] by {
                assert forall|j: int| 0 <= j < self.cols implies m@[i][j] == self@[i][j] by {
                    lemma_flat_index(self.rows as int, self.cols as int, i, j);
                }
            }
            assert(m@ =~= self@);
        }
        m
    }

    /// The row-major contents of the matrix, as a fresh vector of length
    /// `rows * cols` with element `(i, j)` at position `i * cols + j`.
    pub fn to_vec(&self) -> (r: Vec<i64>)
        requires
            self.wf(),
        ensures
            r@.len() == self.nrows() * self.ncols(),
            forall|i: int, j: int|
                0 <= i < self.nrows() && 0 <= j < self.ncols() ==> r@[i * self.ncols() + j] as int
                    == #[trigger] self@[i][j],
    {
        let mut data: Vec<i64> = Vec::new();
        let n: usize = self.data.len();
        let mut k: usize = 0;
        while k < n
            invariant
                k <= n,
                n == self.data.len(),
                data.len() == k,
                forall|t: int| 0 <= t < k ==> data@[t] == self.data@[t],
            decreases n - k,
        {
            data.push(self.data[k]);
            k = k + 1;
        }
        proof {
            assert forall|i: int, j: int|
                0 <= i < self.nrows() && 0 <= j < self.ncols() implies data@[i * self.ncols()
                + j] as int == #[trigger] self@[i][j] by {
                lemma_flat_index(self.rows as int, self.cols as int, i, j);
            }
        }
        data
    }

    /// The transpose: dimensions swapped, entry `(i, j)` of the result is
    /// entry `(j, i)` of the receiver. Always succeeds.
    pub fn transpose(&self) -> (r: Mat)
        requires
            self.wf(),
        ensures
            r.wf(),
            r@ == grid_transpose(self@),
    {
        proof {
            lemma_mul_is_commutative(self.cols as int, self.rows as int);
        }
        let mut m = match Mat::zeros(self.cols, self.rows) {
            Ok(m) => m,
            Err(_) => {
                proof {
                    assert(false);
                }
                return Mat { data: Vec::new(), rows: 1, cols: 1 };
            },
        };
        let mut i: usize = 0;
        while i < self.rows
            invariant
                i <= self.rows,
                self.wf(),
                m.wf(),
                m.nrows() == self.ncols(),
                m.ncols() == self.nrows(),
                forall|q: int, p: int|
                    0 <= q < self.ncols() && 0 <= p < i ==> #[trigger] m@[q][p] == self@[p][q],
            decreases self.rows - i,
        {
            let mut j: usize = 0;
            while j < self.cols
                invariant
                    i < self.nrows(),
                    j <= self.cols,
                    self.wf(),
                    m.wf(),
                    m.nrows() == self.ncols(),
                    m.ncols() == self.nrows(),
                    forall|q: int, p: int|
                        0 <= q < self.ncols() && 0 <= p < i ==> #[trigger] m@[q][p] == self@[p][q],
                    forall|q: int| 0 <= q < j ==> #[trigger] m@[q][i as int] == self@[i as int][q],
                decreases self.cols - j,
            {
                let v = self.at(i, j);
                m.put(j, i, v);
                j = j + 1;
            }
            i = i + 1;
        }
        proof {
            assert forall|q: int| 0 <= q < self.ncols() implies m@[q] =~= grid_transpose(
                self@,
            )[q] by {}
            assert(m@ =~= grid_transpose(self@));
        }
        m
    }

    /// The elementwise sum. Fails with `ShapeMismatch` exactly when the
    /// dimensions differ, and with `Overflow` exactly when some entry of
    /// the sum leaves the `i64` range.
    pub fn add(&self, other: &Mat) -> (r: Result<Mat, NumError>)
        requires
            self.wf(),
            other.wf(),
        ensures
            match r {
                Ok(m) => {
                    &&& same_shape(self@, other@)
                    &&& add_fits(self@, other@)
                    &&& m.wf()
                    &&& m@ == grid_add(self@, other@)
                },
                Err(e) => {
                    ||| e == NumError::ShapeMismatch && !same_shape(self@, other@)
                    ||| e == NumError::Overflow && same_shape(self@, other@) && !add_fits(
                        self@,
                        other@,
                    )
                },
            },
    {
        if self.rows != other.rows || self.cols != other.cols {
            return Err(NumError::ShapeMismatch);
        }
        let mut m = match Mat::zeros(self.rows, self.cols) {
            Ok(m) => m,
            Err(_) => {
                proof {
                    assert(false);
                }
                return Err(NumError::Overflow);
            },
        };
        let mut i: usize = 0;
        while i < self.rows
            invariant
                i <= self.rows,
                self.wf(),
                other.wf(),
                other.nrows() == self.nrows(),
                other.ncols() == self.ncols(),
                m.wf(),
                m.nrows() == self.nrows(),
                m.ncols() == self.ncols(),
                forall|p: int, q: int|
                    0 <= p < i && 0 <= q < self.ncols() ==> #[trigger] m@[p][q] == self@[p][q]
                        + other@[p][q],
            decreases self.rows - i,
        {
            let mut j: usize = 0;
            while j < self.cols
                invariant
                    i < self.nrows(),
                    j <= self.cols,
                    self.wf(),
                    other.wf(),
                    other.nrows() == self.nrows(),
                    other.ncols() == self.ncols(),
                    m.wf(),
                    m.nrows() == self.nrows(),
                    m.ncols() == self.ncols(),
                    forall|p: int, q: int|
                        0 <= p < i && 0 <= q < self.ncols() ==> #[trigger] m@[p][q] == self@[p][q]
                            + other@[p][q],
                    forall|q: int|
                        0 <= q < j ==> #[trigger] m@[i as int][q] == self@[i as int][q]
                            + other@[i as int][q],
                decreases self.cols - j,
            {
                let v: i64 = match self.at(i, j).checked_add(other.at(i, j)) {
                    Some(v) => v,
                    None => {
                        proof {
                            assert(!in_i64(self@[i as int][j as int] + other@[i as int][j as int]));
                        }
                        return Err(NumError::Overflow);
                    },
                };
                m.put(i, j, v);
                j = j + 1;
            }
            i = i + 1;
        }
        proof {
            m.lemma_view();
            assert forall|p: int, q: int|
                0 <= p < self.nrows() && 0 <= q < self.ncols() implies in_i64(
                (#[trigger] self@[p][q]) + other@[p][q],
            ) by {
                assert(in_i64(m@[p][q]));
            }
            assert forall|p: int| 0 <= p < self.nrows() implies m@[p] =~= grid_add(
                self@,
                other@,
            )[p] by {}
            assert(m@ =~= grid_add(self@, other@));
        }
        Ok(m)
    }

    /// The elementwise difference. Fails with `ShapeMismatch` exactly when
    /// the dimensions differ, and with `Overflow` exactly when some entry
    /// of the difference leaves the `i64` range.
    pub fn sub(&self, other: &Mat) -> (r: Result<Mat, NumError>)
        requires
            self.wf(),
            other.wf(),
        ensures
            match r {
                Ok(m) => {
                    &&& same_shape(self@, other@)
                    &&& sub_fits(self@, other@)
                    &&& m.wf()
                    &&& m@ == grid_sub(self@, other@)
                },
                Err(e) => {
                    ||| e == NumError::ShapeMismatch && !same_shape(self@, other@)
                    ||| e == NumError::Overflow && same_shape(self@, other@) && !sub_fits(
                        self@,
                        other@,
                    )
                },
            },
    {
        if self.rows != other.rows || self.cols != other.cols {
            return Err(NumError::ShapeMismatch);
        }
        let mut m = match Mat::zeros(self.rows, self.cols) {
            Ok(m) => m,
            Err(_) => {
                proof {
                    assert(false);
                }
                return Err(NumError::Overflow);
            },
        };
        let mut i: usize = 0;
        while i < self.rows
            invariant
                i <= self.rows,
                self.wf(),
                other.wf(),
                other.nrows() == self.nrows(),
                other.ncols() == self.ncols(),
                m.wf(),
                m.nrows() == self.nrows(),
                m.ncols() == self.ncols(),
                forall|p: int, q: int|
                    0 <= p < i && 0 <= q < self.ncols() ==> #[trigger] m@[p][q] == self@[p][q]
                        - other@[p][q],
            decreases self.rows - i,
        {
            let mut j: usize = 0;
            while j < self.cols
                invariant
                    i < self.nrows(),
                    j <= self.cols,
                    self.wf(),
                    other.wf(),
                    other.nrows() == self.nrows(),
                    other.ncols() == self.ncols(),
                    m.wf(),
                    m.nrows() == self.nrows(),
                    m.ncols() == self.ncols(),
                    forall|p: int, q: int|
                        0 <= p < i && 0 <= q < self.ncols() ==> #[trigger] m@[p][q] == self@[p][q]
                            - other@[p][q],
                    forall|q: int|
                        0 <= q < j ==> #[trigger] m@[i as int][q] == self@[i as int][q]
                            - other@[i as int][q],
                decreases self.cols - j,
            {
                let v: i64 = match self.at(i, j).checked_sub(other.at(i, j)) {
                    Some(v) => v,
                    None => {
                        proof {
                            assert(!in_i64(self@[i as int][j as int] - other@[i as int][j as int]));
                        }
                        return Err(NumError::Overflow);
                    },
                };
                m.put(i, j, v);
                j = j + 1;
            }
            i = i + 1;
        }
        proof {
            m.lemma_view();
            assert forall|p: int, q: int|
                0 <= p < self.nrows() && 0 <= q < self.ncols() implies in_i64(
                (#[trigger] self@[p][q]) - other@[p][q],
            ) by {
                assert(in_i64(m@[p][q]));
            }
            assert forall|p: int| 0 <= p < self.nrows() implies m@[p] =~= grid_sub(
                self@,
                other@,
            )[p] by {}
            assert(m@ =~= grid_sub(self@, other@));
        }
        Ok(m)
    }

    /// The elementwise negation. Fails with `Overflow` exactly when some
    /// negated entry leaves the `i64` range.
    pub fn neg(&self) -> (r: Result<Mat, NumError>)
        requires
            self.wf(),
        ensures
            match r {
                Ok(m) => {
                    &&& neg_fits(self@)
                    &&& m.wf()
                    &&& m@ == grid_neg(self@)
                },
                Err(e) => e == NumError::Overflow && !neg_fits(self@),
            },
    {
        let mut m = match Mat::zeros(self.rows, self.cols) {
            Ok(m) => m,
            Err(_) => {
                proof {
                    assert(false);
                }
                return Err(NumError::Overflow);
            },
        };
        let mut i: usize = 0;
        while i < self.rows
            invariant
                i <= self.rows,
                self.wf(),
                m.wf(),
                m.nrows() == self.nrows(),
                m.ncols() == self.ncols(),
                forall|p: int, q: int|
                    0 <= p < i && 0 <= q < self.ncols() ==> #[trigger] m@[p][q] == -self@[p][q],
            decreases self.rows - i,
        {
            let mut j: usize = 0;
            while j < self.cols
                invariant
                    i < self.nrows(),
                    j <= self.cols,
                    self.wf(),
                    m.wf(),
                    m.nrows() == self.nrows(),
                    m.ncols() == self.ncols(),
                    forall|p: int, q: int|
                        0 <= p < i && 0 <= q < self.ncols() ==> #[trigger] m@[p][q] == -self@[p][q],
                    forall|q: int|
                        0 <= q < j ==> #[trigger] m@[i as int][q] == -self@[i as int][q],
                decreases self.cols - j,
            {
                let v: i64 = match (0i64).checked_sub(self.at(i, j)) {
                    Some(v) => v,
                    None => {
                        proof {
                            assert(!in_i64(-self@[i as int][j as int]));
                        }
                        return Err(NumError::Overflow);
                    },
                };
                m.put(i, j, v);
                j = j + 1;
            }
            i = i + 1;
        }
        proof {
            m.lemma_view();
            assert forall|p: int, q: int|
                0 <= p < self.nrows() && 0 <= q < self.ncols() implies in_i64(
                -(#[trigger] self@[p][q]),
            ) by {
                assert(in_i64(m@[p][q]));
            }
            assert forall|p: int| 0 <= p < self.nrows() implies m@[p] =~= grid_neg(self@)[p] by {}
            assert(m@ =~= grid_neg(self@));
        }
        Ok(m)
    }

    /// The matrix scaled elementwise by `k`; scaling from the left and
    /// from the right agree, so this one operation serves both. Fails with
    /// `Overflow` exactly when some scaled entry leaves the `i64` range.
    pub fn scale(&self, k: i64) -> (r: Result<Mat, NumError>)
        requires
            self.wf(),
        ensures
            match r {
                Ok(m) => {
                    &&& scale_fits(self@, k as int)
                    &&& m.wf()
                    &&& m@ == grid_scale(self@, k as int)
                },
                Err(e) => e == NumError::Overflow && !scale_fits(self@, k as int),
            },
    {
        let mut m = match Mat::zeros(self.rows, self.cols) {
            Ok(m) => m,
            Err(_) => {
                proof {
                    assert(false);
                }
                return Err(NumError::Overflow);
            },
        };
        let mut i: usize = 0;
        while i < self.rows
            invariant
                i <= self.rows,
                self.wf(),
                m.wf(),
                m.nrows() == self.nrows(),
                m.ncols() == self.ncols(),
                forall|p: int, q: int|
                    0 <= p < i && 0 <= q < self.ncols() ==> #[trigger] m@[p][q] == self@[p][q] * (
                    k as int),
            decreases self.rows - i,
        {
            let mut j: usize = 0;
            while j < self.cols
                invariant
                    i < self.nrows(),
                    j <= self.cols,
                    self.wf(),
                    m.wf(),
                    m.nrows() == self.nrows(),
                    m.ncols() == self.ncols(),
                    forall|p: int, q: int|
                        0 <= p < i && 0 <= q < self.ncols() ==> #[trigger] m@[p][q] == self@[p][q]
                            * (k as int),
                    forall|q: int|
                        0 <= q < j ==> #[trigger] m@[i as int][q] == self@[i as int][q] * (
                        k as int),
                decreases self.cols - j,
            {
                let v: i64 = match self.at(i, j).checked_mul(k) {
                    Some(v) => v,
                    None => {
                        proof {
                            assert(!in_i64(self@[i as int][j as int] * (k as int)));
                        }
                        return Err(NumError::Overflow);
                    },
                };
                m.put(i, j, v);
                j = j + 1;
            }
            i = i + 1;
        }
        proof {
            m.lemma_view();
            assert forall|p: int, q: int|
                0 <= p < self.nrows() && 0 <= q < self.ncols() implies in_i64(
                (#[trigger] self@[p][q]) * (k as int),
            ) by {
                assert(in_i64(m@[p][q]));
            }
            assert forall|p: int| 0 <= p < self.nrows() implies m@[p] =~= grid_scale(
                self@,
                k as int,
            )[p] by {}
            assert(m@ =~= grid_scale(self@, k as int));
        }
        Ok(m)
    }

    /// The matrix divided elementwise by `k`, each quotient truncated
    /// toward zero. Fails with `DivisionByZero` exactly when `k == 0`, and
    /// with `Overflow` exactly when some quotient leaves the `i64` range
    /// (only `i64::MIN / -1` does).
    pub fn div_scalar(&self, k: i64) -> (r: Result<Mat, NumError>)
        requires
            self.wf(),
        ensures
            match r {
                Ok(m) => {
                    &&& k != 0
                    &&& div_fits(self@, k as int)
                    &&& m.wf()
                    &&& m@ == grid_div(self@, k as int)
                },
                Err(e) => {
                    ||| e == NumError::DivisionByZero && k == 0
                    ||| e == NumError::Overflow && k != 0 && !div_fits(self@, k as int)
                },
            },
    {
        if k == 0 {
            return Err(NumError::DivisionByZero);
        }
        let mut m = match Mat::zeros(self.rows, self.cols) {
            Ok(m) => m,
            Err(_) => {
                proof {
                    assert(false);
                }
                return Err(NumError::Overflow);
            },
        };
        let mut i: usize = 0;
        while i < self.rows
            invariant
                k != 0,
                i <= self.rows,
                self.wf(),
                m.wf(),
                m.nrows() == self.nrows(),
                m.ncols() == self.ncols(),
                forall|p: int, q: int|
                    0 <= p < i && 0 <= q < self.ncols() ==> #[trigger] m@[p][q] == div_trunc(
                        self@[p][q],
                        k as int,
                    ),
            decreases self.rows - i,
        {
            let mut j: usize = 0;
            while j < self.cols
                invariant
                    k != 0,
                    i < self.nrows(),
                    j <= self.cols,
                    self.wf(),
                    m.wf(),
                    m.nrows() == self.nrows(),
                    m.ncols() == self.ncols(),
                    forall|p: int, q: int|
                        0 <= p < i && 0 <= q < self.ncols() ==> #[trigger] m@[p][q] == div_trunc(
                            self@[p][q],
                            k as int,
                        ),
                    forall|q: int|
                        0 <= q < j ==> #[trigger] m@[i as int][q] == div_trunc(
                            self@[i as int][q],
                            k as int,
                        ),
                decreases self.cols - j,
            {
                let v: i64 = match self.at(i, j).checked_div(k) {
                    Some(v) => v,
                    None => {
                        proof {
                            assert(!in_i64(div_trunc(self@[i as int][j as int], k as int)));
                        }
                        return Err(NumError::Overflow);
                    },
                };
                proof {
                    assert(v as int == div_trunc(self@[i as int][j as int], k as int));
                }
                m.put(i, j, v);
                j = j + 1;
            }
            i = i + 1;
        }
        proof {
            m.lemma_view();
            assert forall|p: int, q: int|
                0 <= p < self.nrows() && 0 <= q < self.ncols() implies in_i64(
                div_trunc(#[trigger] self@[p][q], k as int),
            ) by {
                assert(in_i64(m@[p][q]));
            }
            assert forall|p: int| 0 <= p < self.nrows() implies m@[p] =~= grid_div(
                self@,
                k as int,
            )[p] by {}
            assert(m@ =~= grid_div(self@, k as int));
        }
        Ok(m)
    }

    /// The trace: the sum of the diagonal, accumulated left to right.
    /// Fails with `NotSquare` exactly when the matrix is not square, and
    /// with `Overflow` exactly when some partial sum leaves the `i64`
    /// range.
    pub fn trace(&self) -> (r: Result<i64, NumError>)
        requires
            self.wf(),
        ensures
            match r {
                Ok(v) => {
                    &&& self.nrows() == self.ncols()
                    &&& trace_fits(self@)
                    &&& v as int == grid_trace(self@)
                },
                Err(e) => {
                    ||| e == NumError::NotSquare && self.nrows() != self.ncols()
                    ||| e == NumError::Overflow && self.nrows() == self.ncols() && !trace_fits(
                        self@,
                    )
                },
            },
    {
        if self.rows != self.cols {
            return Err(NumError::NotSquare);
        }
        let ghost d: Seq<int> = diag_seq(self@);
        let mut acc: i64 = 0;
        let mut i: usize = 0;
        while i < self.rows
            invariant
                i <= self.rows,
                self.wf(),
                self.nrows() == self.ncols(),
                d == diag_seq(self@),
                acc as int == sum_int(d.take(i as int)),
                forall|t: int| 0 <= t <= i ==> in_i64(sum_int(#[trigger] d.take(t))),
            decreases self.rows - i,
        {
            let v = self.at(i, i);
            proof {
                lemma_sum_take_step(d, i as int);
            }
            acc = match acc.checked_add(v) {
                Some(a) => a,
                None => {
                    proof {
                        assert(!in_i64(sum_int(d.take(i as int + 1))));
                    }
                    return Err(NumError::Overflow);
                },
            };
            i = i + 1;
        }
        proof {
            lemma_sum_take_all(d);
            assert forall|t: int| 0 <= t <= d.len() implies in_i64(sum_int(#[trigger] d.take(t))) by {}
        }
        Ok(acc)
    }

    /// The minor: the matrix with the given row and column deleted, the
    /// relative order of the remaining rows and columns preserved. Fails
    /// with `IndexOutOfBounds` exactly when an index is outside the
    /// dimensions, and with `TooSmall` exactly when there are fewer than
    /// two rows or columns.
    pub fn sub_matrix(&self, row: usize, col: usize) -> (r: Result<Mat, NumError>)
        requires
            self.wf(),
        ensures
            match r {
                Ok(m) => {
                    &&& row < self.nrows() && col < self.ncols()
                    &&& self.nrows() > 1 && self.ncols() > 1
                    &&& m.wf()
                    &&& m.nrows() == self.nrows() - 1
                    &&& m.ncols() == self.ncols() - 1
                    &&& m@ == grid_minor(self@, row as int, col as int)
                },
                Err(e) => {
                    ||| e == NumError::IndexOutOfBounds && (row >= self.nrows() || col
                        >= self.ncols())
                    ||| e == NumError::TooSmall && row < self.nrows() && col < self.ncols() && (
                    self.nrows() <= 1 || self.ncols() <= 1)
                },
            },
    {
        if row >= self.rows || col >= self.cols {
            return Err(NumError::IndexOutOfBounds);
        }
        if self.rows <= 1 || self.cols <= 1 {
            return Err(NumError::TooSmall);
        }
        proof {
            lemma_mul_upper_bound(
                self.rows as int - 1,
                self.rows as int,
                self.cols as int - 1,
                self.cols as int,
            );
        }
        let mut m = match Mat::zeros(self.rows - 1, self.cols - 1) {
            Ok(m) => m,
            Err(_) => {
                proof {
                    assert(false);
                }
                return Err(NumError::TooSmall);
            },
        };
        let ghost gm: Grid = grid_minor(self@, row as int, col as int);
        let mut i: usize = 0;
        while i < self.rows - 1
            invariant
                i <= self.rows - 1,
                self.wf(),
                row < self.nrows(),
                col < self.ncols(),
                self.nrows() > 1,
                self.ncols() > 1,
                m.wf(),
                m.nrows() == self.nrows() - 1,
                m.ncols() == self.ncols() - 1,
                gm == grid_minor(self@, row as int, col as int),
                forall|p: int, q: int|
                    0 <= p < i && 0 <= q < self.ncols() - 1 ==> #[trigger] m@[p][q] == gm[p][q],
            decreases self.rows - 1 - i,
        {
            let si: usize = if i < row {
                i
            } else {
                i + 1
            };
            let mut j: usize = 0;
            while j < self.cols - 1
                invariant
                    i < self.nrows() - 1,
                    j <= self.cols - 1,
                    si == (if i < row {
                        i as int
                    } else {
                        i as int + 1
                    }),
                    self.wf(),
                    row < self.nrows(),
                    col < self.ncols(),
                    self.nrows() > 1,
                    self.ncols() > 1,
                    m.wf(),
                    m.nrows() == self.nrows() - 1,
                    m.ncols() == self.ncols() - 1,
                    gm == grid_minor(self@, row as int, col as int),
                    forall|p: int, q: int|
                        0 <= p < i && 0 <= q < self.ncols() - 1 ==> #[trigger] m@[p][q] == gm[p][q],
                    forall|q: int| 0 <= q < j ==> #[trigger] m@[i as int][q] == gm[i as int][q],
                decreases self.cols - 1 - j,
            {
                let sj: usize = if j < col {
                    j
                } else {
                    j + 1
                };
                let v = self.at(si, sj);
                m.put(i, j, v);
                j = j + 1;
            }
            i = i + 1;
        }
        proof {
            assert forall|p: int| 0 <= p < self.nrows() - 1 implies m@[p] =~= gm[p] by {}
            assert(m@ =~= gm);
        }
        Ok(m)
    }

    /// The matrix product: entry `(i, j)` is the inner product of row `i`
    /// of the receiver and column `j` of `other`, accumulated left to
    /// right. Fails with `ShapeMismatch` exactly when the inner dimensions
    /// differ, and with `Overflow` exactly when the result would exceed
    /// the address space or some product or partial sum leaves the `i64`
    /// range.
    pub fn multiply(&self, other: &Mat) -> (r: Result<Mat, NumError>)
        requires
            self.wf(),
            other.wf(),
        ensures
            match r {
                Ok(m) => {
                    &&& self.ncols() == other.nrows()
                    &&& self.nrows() * other.ncols() <= usize::MAX
                    &&& mul_fits(self@, other@)
                    &&& m.wf()
                    &&& m@ == grid_mul(self@, other@)
                },
                Err(e) => {
                    ||| e == NumError::ShapeMismatch && self.ncols() != other.nrows()
                    ||| e == NumError::Overflow && self.ncols() == other.nrows() && (self.nrows()
                        * other.ncols() > usize::MAX || !mul_fits(self@, other@))
                },
            },
    {
        if self.cols != other.rows {
            return Err(NumError::ShapeMismatch);
        }
        let mut m = match Mat::zeros(self.rows, other.cols) {
            Ok(m) => m,
            Err(_) => {
                return Err(NumError::Overflow);
            },
        };
        let mut i: usize = 0;
        while i < self.rows
            invariant
                i <= self.rows,
                self.wf(),
                other.wf(),
                self.ncols() == other.nrows(),
                m.wf(),
                m.nrows() == self.nrows(),
                m.ncols() == other.ncols(),
                forall|p: int, q: int|
                    0 <= p < i && 0 <= q < other.ncols() ==> #[trigger] m@[p][q] == dot_int(
                        self@[p],
                        col_seq(other@, q),
                    ),
                forall|p: int, q: int|
                    0 <= p < i && 0 <= q < other.ncols() ==> #[trigger] dot_fits(
                        self@[p],
                        col_seq(other@, q),
                    ),
            decreases self.rows - i,
        {
            let mut j: usize = 0;
            while j < other.cols
                invariant
                    i < self.nrows(),
                    j <= other.cols,
                    self.wf(),
                    other.wf(),
                    self.ncols() == other.nrows(),
                    m.wf(),
                    m.nrows() == self.nrows(),
                    m.ncols() == other.ncols(),
                    forall|p: int, q: int|
                        0 <= p < i && 0 <= q < other.ncols() ==> #[trigger] m@[p][q] == dot_int(
                            self@[p],
                            col_seq(other@, q),
                        ),
                    forall|p: int, q: int|
                        0 <= p < i && 0 <= q < other.ncols() ==> #[trigger] dot_fits(
                            self@[p],
                            col_seq(other@, q),
                        ),
                    forall|q: int|
                        0 <= q < j ==> #[trigger] m@[i as int][q] == dot_int(
                            self@[i as int],
                            col_seq(other@, q),
                        ),
                    forall|q: int|
                        0 <= q < j ==> #[trigger] dot_fits(self@[i as int], col_seq(other@, q)),
                decreases other.cols - j,
            {
                let ghost ps: Seq<int> = prod_seq(self@[i as int], col_seq(other@, j as int));
                let mut acc: i64 = 0;
                let mut k: usize = 0;
                while k < self.cols
                    invariant
                        i < self.nrows(),
                        j < other.ncols(),
                        k <= self.cols,
                        self.wf(),
                        other.wf(),
                        self.ncols() == other.nrows(),
                        ps == prod_seq(self@[i as int], col_seq(other@, j as int)),
                        acc as int == sum_int(ps.take(k as int)),
                        forall|t: int| 0 <= t <= k ==> in_i64(sum_int(#[trigger] ps.take(t))),
                        forall|t: int|
                            0 <= t < k ==> in_i64(
                                (#[trigger] self@[i as int][t]) * col_seq(other@, j as int)[t],
                            ),
                    decreases self.cols - k,
                {
                    let a = self.at(i, k);
                    let b = other.at(k, j);
                    let p: i64 = match a.checked_mul(b) {
                        Some(p) => p,
                        None => {
                            proof {
                                assert(!in_i64(
                                    self@[i as int][k as int] * col_seq(other@, j as int)[k as int],
                                ));
                                assert(!dot_fits(self@[i as int], col_seq(other@, j as int)));
                            }
                            return Err(NumError::Overflow);
                        },
                    };
                    proof {
                        lemma_sum_take_step(ps, k as int);
                        assert(ps[k as int] == p as int);
                    }
                    acc = match acc.checked_add(p) {
                        Some(a) => a,
                        None => {
                            proof {
                                assert(!in_i64(sum_int(ps.take(k as int + 1))));
                                assert(!dot_fits(self@[i as int], col_seq(other@, j as int)));
                            }
                            return Err(NumError::Overflow);
                        },
                    };
                    k = k + 1;
                }
                proof {
                    lemma_sum_take_all(ps);
                    assert(acc as int == dot_int(self@[i as int], col_seq(other@, j as int)));
                    assert forall|t: int| 0 <= t <= ps.len() implies in_i64(
                        sum_int(#[trigger] ps.take(t)),
                    ) by {}
                    assert(dot_fits(self@[i as int], col_seq(other@, j as int)));
                }
                m.put(i, j, acc);
                j = j + 1;
            }
            i = i + 1;
        }
        proof {
            assert(mul_fits(self@, other@));
            assert forall|p: int| 0 <= p < self.nrows() implies m@[p] =~= grid_mul(
                self@,
                other@,
            )[p] by {}
            assert(m@ =~= grid_mul(self@, other@));
        }
        Ok(m)
    }

    /// A named alias of [`Mat::multiply`], with the identical contract,
    /// for callers that want the intent of an inner product spelled out.
    pub fn dot(&self, other: &Mat) -> (r: Result<Mat, NumError>)
        requires
            self.wf(),
            other.wf(),
        ensures
            match r {
                Ok(m) => {
                    &&& self.ncols() == other.nrows()
                    &&& self.nrows() * other.ncols() <= usize::MAX
                    &&& mul_fits(self@, other@)
                    &&& m.wf()
                    &&& m@ == grid_mul(self@, other@)
                },
                Err(e) => {
                    ||| e == NumError::ShapeMismatch && self.ncols() != other.nrows()
                    ||| e == NumError::Overflow && self.ncols() == other.nrows() && (self.nrows()
                        * other.ncols() > usize::MAX || !mul_fits(self@, other@))
                },
            },
    {
        self.multiply(other)
    }

    /// The determinant of a square matrix: the single element for
    /// dimension 1, the closed form for dimension 2, and for larger
    /// dimensions the Laplace expansion along row 0 with alternating
    /// signs starting at `+1`. The recursion is exponential in the
    /// dimension by construction; that cost is accepted for the library's
    /// target sizes. Fails with `NotSquare` exactly when the matrix is
    /// not square, and with `Overflow` exactly when some intermediate of
    /// the expansion leaves the `i64` range.
    pub fn det(&self) -> (r: Result<i64, NumError>)
        requires
            self.wf(),
        ensures
            match r {
                Ok(v) => {
                    &&& self.nrows() == self.ncols()
                    &&& det_fits(self@)
                    &&& v as int == grid_det(self@)
                },
                Err(e) => {
                    ||| e == NumError::NotSquare && self.nrows() != self.ncols()
                    ||| e == NumError::Overflow && self.nrows() == self.ncols() && !det_fits(self@)
                },
            },
        decreases self.nrows(),
    {
        if self.rows != self.cols {
            return Err(NumError::NotSquare);
        }
        if self.rows == 1 {
            return Ok(self.at(0, 0));
        }
        if self.rows == 2 {
            let p1: i64 = match self.at(0, 0).checked_mul(self.at(1, 1)) {
                Some(p) => p,
                None => {
                    return Err(NumError::Overflow);
                },
            };
            let p2: i64 = match self.at(0, 1).checked_mul(self.at(1, 0)) {
                Some(p) => p,
                None => {
                    return Err(NumError::Overflow);
                },
            };
            let v: i64 = match p1.checked_sub(p2) {
                Some(v) => v,
                None => {
                    return Err(NumError::Overflow);
                },
            };
            return Ok(v);
        }
        let ghost g: Grid = self@;
        let mut acc: i64 = 0;
        let mut i: usize = 0;
        while i < self.cols
            invariant
                i <= self.cols,
                self.wf(),
                self.nrows() == self.ncols(),
                self.nrows() > 2,
                g == self@,
                acc as int == det_expand(g, i as nat),
                expand_fits(g, i as nat),
            decreases self.cols - i,
        {
            let sub = match self.sub_matrix(0, i) {
                Ok(s) => s,
                Err(_) => {
                    proof {
                        assert(false);
                    }
                    return Err(NumError::Overflow);
                },
            };
            let ghost gm: Grid = grid_minor(g, 0, i as int);
            let d: i64 = match sub.det() {
                Ok(d) => d,
                Err(_) => {
                    proof {
                        if det_fits(g) {
                            lemma_expand_fits_mono(g, (i + 1) as nat, g[0].len());
                        }
                    }
                    return Err(NumError::Overflow);
                },
            };
            let a0i: i64 = self.at(0, i);
            let p: i64 = match a0i.checked_mul(d) {
                Some(p) => p,
                None => {
                    proof {
                        if det_fits(g) {
                            lemma_expand_fits_mono(g, (i + 1) as nat, g[0].len());
                        }
                    }
                    return Err(NumError::Overflow);
                },
            };
            let t: i64 = if i % 2 == 1 {
                match (0i64).checked_sub(p) {
                    Some(t) => t,
                    None => {
                        proof {
                            lemma_mul_unary_negation(g[0][i as int], grid_det(gm));
                            if det_fits(g) {
                                lemma_expand_fits_mono(g, (i + 1) as nat, g[0].len());
                                assert(expand_fits(g, (i + 1) as nat));
                                assert(in_i64(
                                    det_sign(i as int) * g[0][i as int] * grid_det(gm),
                                ));
                                assert(det_sign(i as int) == -1);
                                assert((det_sign(i as int) * g[0][i as int]) * grid_det(gm) == (-g[0][i as int])
                                    * grid_det(gm));
                                assert(false);
                            }
                        }
                        return Err(NumError::Overflow);
                    },
                }
            } else {
                p
            };
            proof {
                lemma_mul_unary_negation(g[0][i as int], grid_det(gm));
                assert(t as int == det_sign(i as int) * g[0][i as int] * grid_det(gm));
            }
            acc = match acc.checked_add(t) {
                Some(a) => a,
                None => {
                    proof {
                        if det_fits(g) {
                            lemma_expand_fits_mono(g, (i + 1) as nat, g[0].len());
                        }
                    }
                    return Err(NumError::Overflow);
                },
            };
            i = i + 1;
        }
        Ok(acc)
    }

    /// The cofactor matrix: entry `(i, j)` is `(-1)^(i+j)` times the
    /// determinant of the minor with row `i` and column `j` deleted. This
    /// is the dominant cost centre of the library: a full recursive
    /// determinant per entry. Fails with `NotSquare` exactly when the
    /// matrix is not square, with `TooSmall` exactly when it is `1` by
    /// `1` (no minor can be extracted), and with `Overflow` exactly when
    /// some cofactor computation leaves the `i64` range.
    pub fn cofactor(&self) -> (r: Result<Mat, NumError>)
        requires
            self.wf(),
        ensures
            match r {
                Ok(m) => {
                    &&& self.nrows() == self.ncols()
                    &&& self.nrows() > 1
                    &&& cofactor_fits(self@)
                    &&& m.wf()
                    &&& m@ == grid_cofactor(self@)
                },
                Err(e) => {
                    ||| e == NumError::NotSquare && self.nrows() != self.ncols()
                    ||| e == NumError::TooSmall && self.nrows() == self.ncols() && self.nrows()
                        == 1
                    ||| e == NumError::Overflow && self.nrows() == self.ncols() && self.nrows() > 1
                        && !cofactor_fits(self@)
                },
            },
    {
        if self.rows != self.cols {
            return Err(NumError::NotSquare);
        }
        if self.rows == 1 {
            return Err(NumError::TooSmall);
        }
        let ghost g: Grid = self@;
        let mut m = match Mat::zeros(self.rows, self.cols) {
            Ok(m) => m,
            Err(_) => {
                proof {
                    assert(false);
                }
                return Err(NumError::Overflow);
            },
        };
        let mut i: usize = 0;
        while i < self.rows
            invariant
                i <= self.rows,
                self.wf(),
                self.nrows() == self.ncols(),
                self.nrows() > 1,
                g == self@,
                m.wf(),
                m.nrows() == self.nrows(),
                m.ncols() == self.ncols(),
                forall|p: int, q: int|
                    0 <= p < i && 0 <= q < self.ncols() ==> #[trigger] m@[p][q] == cof_sign(p, q)
                        * grid_det(grid_minor(g, p, q)),
                forall|p: int, q: int|
                    0 <= p < i && 0 <= q < self.ncols() ==> det_fits(#[trigger] grid_minor(g, p, q))
                        && in_i64(cof_sign(p, q) * grid_det(grid_minor(g, p, q))),
            decreases self.rows - i,
        {
            let mut j: usize = 0;
            while j < self.cols
                invariant
                    i < self.nrows(),
                    j <= self.cols,
                    self.wf(),
                    self.nrows() == self.ncols(),
                    self.nrows() > 1,
                    g == self@,
                    m.wf(),
                    m.nrows() == self.nrows(),
                    m.ncols() == self.ncols(),
                    forall|p: int, q: int|
                        0 <= p < i && 0 <= q < self.ncols() ==> #[trigger] m@[p][q] == cof_sign(
                            p,
                            q,
                        ) * grid_det(grid_minor(g, p, q)),
                    forall|p: int, q: int|
                        0 <= p < i && 0 <= q < self.ncols() ==> det_fits(
                            #[trigger] grid_minor(g, p, q),
                        ) && in_i64(cof_sign(p, q) * grid_det(grid_minor(g, p, q))),
                    forall|q: int|
                        0 <= q < j ==> #[trigger] m@[i as int][q] == cof_sign(i as int, q)
                            * grid_det(grid_minor(g, i as int, q)),
                    forall|q: int|
                        0 <= q < j ==> det_fits(#[trigger] grid_minor(g, i as int, q)) && in_i64(
                            cof_sign(i as int, q) * grid_det(grid_minor(g, i as int, q)),
                        ),
                decreases self.cols - j,
            {
                let sub = match self.sub_matrix(i, j) {
                    Ok(s) => s,
                    Err(_) => {
                        proof {
                            assert(false);
                        }
                        return Err(NumError::Overflow);
                    },
                };
                let ghost gm: Grid = grid_minor(g, i as int, j as int);
                let d: i64 = match sub.det() {
                    Ok(d) => d,
                    Err(_) => {
                        proof {
                            assert(!det_fits(gm));
                        }
                        return Err(NumError::Overflow);
                    },
                };
                let even: bool = (i % 2) == (j % 2);
                proof {
                    assert(even == (cof_sign(i as int, j as int) == 1));
                }
                let t: i64 = if even {
                    d
                } else {
                    match (0i64).checked_sub(d) {
                        Some(t) => t,
                        None => {
                            proof {
                                assert(!in_i64(cof_sign(i as int, j as int) * grid_det(gm)));
                            }
                            return Err(NumError::Overflow);
                        },
                    }
                };
                proof {
                    assert(t as int == cof_sign(i as int, j as int) * grid_det(gm));
                }
                m.put(i, j, t);
                j = j + 1;
            }
            i = i + 1;
        }
        proof {
            assert(cofactor_fits(g));
            assert forall|p: int| 0 <= p < self.nrows() implies m@[p] =~= grid_cofactor(g)[p] by {}
            assert(m@ =~= grid_cofactor(g));
        }
        Ok(m)
    }

    /// The adjugate: the transpose of the cofactor matrix, the exact
    /// numerator of the inverse. Fails exactly as [`Mat::cofactor`] does.
    pub fn adjugate(&self) -> (r: Result<Mat, NumError>)
        requires
            self.wf(),
        ensures
            match r {
                Ok(m) => {
                    &&& self.nrows() == self.ncols()
                    &&& self.nrows() > 1
                    &&& cofactor_fits(self@)
                    &&& m.wf()
                    &&& m@ == grid_adjugate(self@)
                },
                Err(e) => {
                    ||| e == NumError::NotSquare && self.nrows() != self.ncols()
                    ||| e == NumError::TooSmall && self.nrows() == self.ncols() && self.nrows()
                        == 1
                    ||| e == NumError::Overflow && self.nrows() == self.ncols() && self.nrows() > 1
                        && !cofactor_fits(self@)
                },
            },
    {
        match self.cofactor() {
            Ok(c) => Ok(c.transpose()),
            Err(e) => Err(e),
        }
    }

    /// The inverse, represented exactly: `Ok(Some((adj, d)))` means the
    /// inverse is the adjugate `adj` with every entry divided by the
    /// determinant `d`, which is nonzero. A singular matrix — determinant
    /// zero — yields `Ok(None)`, so a caller can branch on singularity
    /// without error handling. Fails with `NotSquare` exactly when the
    /// matrix is not square, with `TooSmall` when it is `1` by `1` with
    /// nonzero determinant, and with `Overflow` when the determinant or a
    /// cofactor leaves the `i64` range.
    pub fn inverse(&self) -> (r: Result<Option<(Mat, i64)>, NumError>)
        requires
            self.wf(),
        ensures
            match r {
                Ok(opt) => {
                    &&& self.nrows() == self.ncols()
                    &&& det_fits(self@)
                    &&& match opt {
                        None => grid_det(self@) == 0,
                        Some(inv) => {
                            &&& grid_det(self@) != 0
                            &&& self.nrows() > 1
                            &&& cofactor_fits(self@)
                            &&& inv.1 as int == grid_det(self@)
                            &&& inv.0.wf()
                            &&& inv.0@ == grid_adjugate(self@)
                        },
                    }
                },
                Err(e) => {
                    ||| e == NumError::NotSquare && self.nrows() != self.ncols()
                    ||| e == NumError::Overflow && self.nrows() == self.ncols() && (!det_fits(self@)
                        || (grid_det(self@) != 0 && self.nrows() > 1 && !cofactor_fits(self@)))
                    ||| e == NumError::TooSmall && self.nrows() == self.ncols() && det_fits(self@)
                        && grid_det(self@) != 0 && self.nrows() == 1
                },
            },
    {
        let d: i64 = match self.det() {
            Ok(d) => d,
            Err(e) => {
                return Err(e);
            },
        };
        if d == 0 {
            return Ok(None);
        }
        match self.adjugate() {
            Ok(adj) => Ok(Some((adj, d))),
            Err(e) => Err(e),
        }
    }

    /// The matrix raised to the power `n` by binary exponentiation —
    /// `O(log n)` multiplications by repeated squaring. The zeroth power
    /// is the identity of the same dimension and the first is a copy of
    /// the matrix. Fails with `NotSquare` exactly when the matrix is not
    /// square, and with `Overflow` exactly when some multiplication along
    /// the squaring chain leaves the `i64` range.
    pub fn pow(&self, n: u32) -> (r: Result<Mat, NumError>)
        requires
            self.wf(),
        ensures
            match r {
                Ok(m) => {
                    &&& self.nrows() == self.ncols()
                    &&& pow_fits(self@, n as nat)
                    &&& m.wf()
                    &&& m@ == grid_pow(self@, n as nat)
                },
                Err(e) => {
                    ||| e == NumError::NotSquare && self.nrows() != self.ncols()
                    ||| e == NumError::Overflow && self.nrows() == self.ncols() && !pow_fits(
                        self@,
                        n as nat,
                    )
                },
            },
        decreases n,
    {
        if self.rows != self.cols {
            return Err(NumError::NotSquare);
        }
        proof {
            self.lemma_view();
        }
        if n == 0 {
            let m = match Mat::eye(self.rows) {
                Ok(m) => m,
                Err(_) => {
                    proof {
                        assert(false);
                    }
                    return Err(NumError::Overflow);
                },
            };
            return Ok(m);
        }
        if n == 1 {
            proof {
                lemma_mul_eye_left(self@);
                assert(grid_pow(self@, 0) == grid_eye(self@.len()));
                assert(grid_pow(self@, 1) == grid_mul(grid_pow(self@, 0), self@));
            }
            return Ok(self.duplicate());
        }
        let half = match self.pow(n / 2) {
            Ok(h) => h,
            Err(e) => {
                return Err(e);
            },
        };
        let _hb: usize = half.alloc_bound();
        let sq = match half.multiply(&half) {
            Ok(s) => s,
            Err(_) => {
                proof {
                    lemma_pow_dims(self@, (n / 2) as nat);
                }
                return Err(NumError::Overflow);
            },
        };
        proof {
            lemma_pow_add(self@, (n / 2) as nat, (n / 2) as nat);
        }
        if n % 2 == 0 {
            Ok(sq)
        } else {
            match sq.multiply(self) {
                Ok(m) => {
                    proof {
                        assert(n as nat == (n / 2 + n / 2 + 1) as nat);
                        assert(grid_pow(self@, n as nat) == grid_mul(
                            grid_pow(self@, (n / 2 + n / 2) as nat),
                            self@,
                        ));
                    }
                    Ok(m)
                },
                Err(_) => {
                    return Err(NumError::Overflow);
                },
            }
        }
    }
}

} // verus!
