//! Rectangular row-major matrices over any element kind with an integer
//! model, together with the module operations the commitment scheme needs:
//! addition, negation, the scalar action, transposition and the two
//! asymmetric multiplications against a scalar matrix.

use crate::adapter::fr_order;
use crate::adapter::fr_val;
use crate::adapter::RandSource;
use crate::adapter::Scalar;
use crate::data_structures::madd;
use crate::data_structures::mneg;
use crate::data_structures::mscale;
use crate::data_structures::msum;
use crate::data_structures::mzero;
use crate::data_structures::Element;
use crate::data_structures::ModuleElem;
use vstd::prelude::*;

verus! {

/// Sum of the cells scaled by the matching scalars, folded from the left:
/// the model of one output cell of a matrix multiplication.
pub open spec fn dot(cells: Seq<Seq<int>>, ss: Seq<int>, w: nat) -> Seq<int>
    decreases cells.len(),
{
    if cells.len() == 0 || ss.len() == 0 {
        mzero(w)
    } else {
        madd(dot(cells.drop_last(), ss.drop_last(), w), mscale(cells.last(), ss.last()))
    }
}

pub proof fn lemma_dot_len(cells: Seq<Seq<int>>, ss: Seq<int>, w: nat)
    ensures
        dot(cells, ss, w).len() == w,
    decreases cells.len(),
{
    if cells.len() == 0 || ss.len() == 0 {
    } else {
        lemma_dot_len(cells.drop_last(), ss.drop_last(), w);
    }
}

pub proof fn lemma_dot_step(cells: Seq<Seq<int>>, ss: Seq<int>, w: nat, k: int)
    requires
        0 <= k < cells.len(),
        cells.len() == ss.len(),
    ensures
        dot(cells.take(k + 1), ss.take(k + 1), w) == madd(
            dot(cells.take(k), ss.take(k), w),
            mscale(cells[k], ss[k]),
        ),
{
    assert(cells.take(k + 1).drop_last() =~= cells.take(k));
    assert(ss.take(k + 1).drop_last() =~= ss.take(k));
    assert(cells.take(k + 1).last() == cells[k]);
    assert(ss.take(k + 1).last() == ss[k]);
}

/// Row-major rectangular collection with dimensions fixed at construction.
pub struct Matrix<T> {
    rows: usize,
    cols: usize,
    data: Vec<T>,
}

impl<T> Matrix<T> {
    /// The stored element count always matches the dimensions.
    #[verifier::type_invariant]
    pub closed spec fn wf(self) -> bool {
        self.data@.len() == self.rows * self.cols
    }

    /// Number of rows.
    pub closed spec fn nrows(self) -> int {
        self.rows as int
    }

    /// Number of columns.
    pub closed spec fn ncols(self) -> int {
        self.cols as int
    }

    /// The element stored at row `i`, column `j`.
    pub closed spec fn entry(self, i: int, j: int) -> T {
        self.data@[i * self.ncols() + j]
    }
}

impl<T: Element> Clone for Matrix<T> {
    fn clone(&self) -> (r: Matrix<T>)
        ensures
            r.nrows() == self.nrows(),
            r.ncols() == self.ncols(),
            forall|i: int, j: int|
                0 <= i < self.nrows() && 0 <= j < self.ncols() ==> r.entry(i, j) == self.entry(
                    i,
                    j,
                ),
    {
        proof {
            use_type_invariant(self);
        }
        let mut data: Vec<T> = Vec::new();
        let n = self.data.len();
        for k in 0..n
            invariant
                n == self.data@.len(),
                data@.len() == k,
                forall|a: int| 0 <= a < k ==> data@[a] == self.data@[a],
        {
            data.push(self.data[k]);
        }
        let r = Matrix { rows: self.rows, cols: self.cols, data };
        proof {
            assert(r.data@ =~= self.data@);
        }
        r
    }
}

/// Dimensions are never negative.
pub proof fn lemma_dims_nonneg<T>(m: Matrix<T>)
    ensures
        m.nrows() >= 0,
        m.ncols() >= 0,
{
}

proof fn lemma_rm_index(i: int, j: int, rows: int, cols: int)
    by (nonlinear_arith)
    requires
        0 <= i < rows,
        0 <= j < cols,
    ensures
        0 <= i * cols + j < rows * cols,
{
}

impl<T: Element> Matrix<T> {
    /// The integer models of all stored elements, in row-major order.
    pub closed spec fn flat_models(self) -> Seq<Seq<int>> {
        self.data@.map_values(|t: T| t.model())
    }

    /// The integer model of the element at row `i`, column `j`.
    pub open spec fn cell(self, i: int, j: int) -> Seq<int> {
        self.entry(i, j).model()
    }

    /// All cell models, row by row.
    pub open spec fn model_rows(self) -> Seq<Seq<Seq<int>>> {
        Seq::new(
            self.nrows() as nat,
            |i: int| Seq::new(self.ncols() as nat, |j: int| self.cell(i, j)),
        )
    }

    /// Construct from row-major literal rows.
    pub fn new<const N: usize>(xs: &[[T; N]]) -> (r: Matrix<T>)
        ensures
            r.nrows() == xs@.len(),
            r.ncols() == N as int,
            forall|i: int, j: int|
                0 <= i < xs@.len() && 0 <= j < N ==> r.entry(i, j) == xs@[i]@[j],
    {
        let rows = xs.len();
        let mut data: Vec<T> = Vec::new();
        proof {
            assert(0 * (N as int) == 0) by (nonlinear_arith);
        }
        for i in 0..rows
            invariant
                rows == xs@.len(),
                data@.len() == i * N,
                forall|a: int, b: int|
                    0 <= a < i && 0 <= b < N ==> data@[a * N + b] == xs@[a]@[b],
        {
            let row = &xs[i];
            for j in 0..N
                invariant
                    rows == xs@.len(),
                    i < rows,
                    row@ == xs@[i as int]@,
                    data@.len() == i * N + j,
                    forall|a: int, b: int|
                        0 <= a < i && 0 <= b < N ==> data@[a * N + b] == xs@[a]@[b],
                    forall|b: int| 0 <= b < j ==> data@[i * N + b] == xs@[i as int]@[b],
            {
                data.push(row[j]);
                proof {
                    assert forall|a: int, b: int| 0 <= a < i && 0 <= b < N implies #[trigger] data@[a
                        * N + b] == xs@[a]@[b] by {
                        lemma_rm_index(a, b, i as int, N as int);
                    };
                }
            }
            proof {
                assert((i + 1) * N == i * N + N) by (nonlinear_arith);
            }
        }
        let r = Matrix { rows, cols: N, data };
        proof {
            assert(forall|i: int, j: int|
                0 <= i < xs@.len() && 0 <= j < N ==> r.entry(i, j) == xs@[i]@[j]);
        }
        r
    }

    /// A matrix with zero rows and `n` columns: the identity element for
    /// vertical concatenation.
    pub fn zeros_column(n: usize) -> (r: Matrix<T>)
        ensures
            r.nrows() == 0,
            r.ncols() == n as int,
    {
        Matrix { rows: 0, cols: n, data: Vec::new() }
    }

    /// Dimensions as `(rows, cols)`.
    pub fn dim(&self) -> (r: (usize, usize))
        ensures
            r.0 as int == self.nrows(),
            r.1 as int == self.ncols(),
    {
        (self.rows, self.cols)
    }

    /// The element at row `i`, column `j`.
    pub fn get(&self, i: usize, j: usize) -> (r: T)
        requires
            i < self.nrows(),
            j < self.ncols(),
        ensures
            r == self.entry(i as int, j as int),
    {
        proof {
            use_type_invariant(self);
            lemma_rm_index(i as int, j as int, self.nrows(), self.ncols());
        }
        let n = self.data.len();
        self.data[i * self.cols + j]
    }

    /// The rows as nested vectors.
    pub fn to_vecs(&self) -> (r: Vec<Vec<T>>)
        ensures
            r@.len() == self.nrows(),
            forall|i: int| 0 <= i < self.nrows() ==> r@[i]@.len() == self.ncols(),
            forall|i: int, j: int|
                0 <= i < self.nrows() && 0 <= j < self.ncols() ==> r@[i]@[j] == self.entry(i, j),
    {
        let mut r: Vec<Vec<T>> = Vec::new();
        let (rows, cols) = self.dim();
        for i in 0..rows
            invariant
                rows as int == self.nrows(),
                cols as int == self.ncols(),
                r@.len() == i,
                forall|a: int| 0 <= a < i ==> r@[a]@.len() == self.ncols(),
                forall|a: int, b: int|
                    0 <= a < i && 0 <= b < cols ==> r@[a]@[b] == self.entry(a, b),
        {
            let mut row: Vec<T> = Vec::new();
            for j in 0..cols
                invariant
                    rows as int == self.nrows(),
                    cols as int == self.ncols(),
                    i < rows,
                    row@.len() == j,
                    forall|b: int| 0 <= b < j ==> row@[b] == self.entry(i as int, b),
            {
                row.push(self.get(i, j));
            }
            r.push(row);
        }
        r
    }

    /// Construct from nested row vectors, which must be non-empty and
    /// rectangular.
    pub fn from_vecs(vecs: &Vec<Vec<T>>) -> (r: Matrix<T>)
        requires
            vecs@.len() > 0,
            forall|i: int| 0 <= i < vecs@.len() ==> #[trigger] vecs@[i]@.len() == vecs@[0]@.len(),
        ensures
            r.nrows() == vecs@.len(),
            r.ncols() == vecs@[0]@.len(),
            forall|i: int, j: int|
                0 <= i < vecs@.len() && 0 <= j < vecs@[0]@.len() ==> r.entry(i, j) == vecs@[i]@[j],
    {
        let rows = vecs.len();
        let cols = vecs[0].len();
        let mut data: Vec<T> = Vec::new();
        proof {
            assert(0 * (cols as int) == 0) by (nonlinear_arith);
        }
        for i in 0..rows
            invariant
                rows == vecs@.len(),
                cols as int == vecs@[0]@.len(),
                forall|a: int| 0 <= a < rows ==> #[trigger] vecs@[a]@.len() == cols,
                data@.len() == i * cols,
                forall|a: int, b: int|
                    0 <= a < i && 0 <= b < cols ==> data@[a * cols + b] == vecs@[a]@[b],
        {
            let row = &vecs[i];
            for j in 0..cols
                invariant
                    rows == vecs@.len(),
                    cols as int == vecs@[0]@.len(),
                    i < rows,
                    row@ == vecs@[i as int]@,
                    row@.len() == cols,
                    data@.len() == i * cols + j,
                    forall|a: int, b: int|
                        0 <= a < i && 0 <= b < cols ==> data@[a * cols + b] == vecs@[a]@[b],
                    forall|b: int| 0 <= b < j ==> data@[i * cols + b] == vecs@[i as int]@[b],
            {
                data.push(row[j]);
                proof {
                    assert forall|a: int, b: int| 0 <= a < i && 0 <= b < cols implies #[trigger] data@[a
                        * cols + b] == vecs@[a]@[b] by {
                        lemma_rm_index(a, b, i as int, cols as int);
                    };
                }
            }
            proof {
                assert((i + 1) * cols == i * cols + cols) by (nonlinear_arith);
            }
        }
        let r = Matrix { rows, cols, data };
        proof {
            assert(forall|i: int, j: int|
                0 <= i < vecs@.len() && 0 <= j < vecs@[0]@.len() ==> r.entry(i, j) == vecs@[i]@[j]);
        }
        r
    }
}

impl<T: ModuleElem> Matrix<T> {
    /// A matrix with every entry drawn fresh from the random source.
    pub fn rand(rng: &mut RandSource, rows: usize, cols: usize) -> (r: Matrix<T>)
        ensures
            r.nrows() == rows as int,
            r.ncols() == cols as int,
            forall|i: int, j: int|
                0 <= i < rows && 0 <= j < cols ==> (#[trigger] r.cell(i, j)).len() == T::width(),
    {
        let total_rows = rows;
        let mut data: Vec<T> = Vec::new();
        proof {
            assert(0 * (cols as int) == 0) by (nonlinear_arith);
        }
        for i in 0..total_rows
            invariant
                data@.len() == i * cols,
                forall|k: int| 0 <= k < data@.len() ==> (#[trigger] data@[k].model()).len() == T::width(),
        {
            for j in 0..cols
                invariant
                    i < total_rows,
                    data@.len() == i * cols + j,
                    forall|k: int|
                        0 <= k < data@.len() ==> (#[trigger] data@[k].model()).len() == T::width(),
            {
                data.push(T::rnd(rng));
            }
            proof {
                assert((i + 1) * cols == i * cols + cols) by (nonlinear_arith);
            }
        }
        let r = Matrix { rows: total_rows, cols, data };
        proof {
            assert forall|i: int, j: int| 0 <= i < rows && 0 <= j < cols implies (#[trigger] r.cell(
                i,
                j,
            )).len() == T::width() by {
                lemma_rm_index(i, j, rows as int, cols as int);
            };
        }
        r
    }
}


impl<T: Element> Matrix<T> {
    /// The models of row `i`, left to right.
    pub open spec fn row_models(self, i: int) -> Seq<Seq<int>> {
        Seq::new(self.ncols() as nat, |k: int| self.cell(i, k))
    }

    /// The models of column `j`, top to bottom.
    pub open spec fn col_models(self, j: int) -> Seq<Seq<int>> {
        Seq::new(self.nrows() as nat, |k: int| self.cell(k, j))
    }
}

impl Matrix<Scalar> {
    /// The residues of row `i` of a scalar matrix.
    pub open spec fn svals_row(self, i: int) -> Seq<int> {
        Seq::new(self.ncols() as nat, |k: int| self.cell(i, k)[0])
    }

    /// The residues of column `j` of a scalar matrix.
    pub open spec fn svals_col(self, j: int) -> Seq<int> {
        Seq::new(self.nrows() as nat, |k: int| self.cell(k, j)[0])
    }

    /// All residues of a scalar matrix, row by row.
    pub open spec fn sval_rows(self) -> Seq<Seq<int>> {
        Seq::new(self.nrows() as nat, |i: int| self.svals_row(i))
    }
}

impl<T: ModuleElem> Matrix<T> {
    /// Entrywise sum of two equally sized matrices.
    pub fn add(&self, other: &Matrix<T>) -> (r: Matrix<T>)
        requires
            self.nrows() == other.nrows(),
            self.ncols() == other.ncols(),
        ensures
            r.nrows() == self.nrows(),
            r.ncols() == self.ncols(),
            forall|i: int, j: int|
                0 <= i < self.nrows() && 0 <= j < self.ncols() ==> r.cell(i, j) == madd(
                    self.cell(i, j),
                    other.cell(i, j),
                ),
    {
        let (rows, cols) = self.dim();
        let mut data: Vec<T> = Vec::new();
        proof {
            assert(0 * (cols as int) == 0) by (nonlinear_arith);
        }
        for i in 0..rows
            invariant
                rows as int == self.nrows(),
                cols as int == self.ncols(),
                self.nrows() == other.nrows(),
                self.ncols() == other.ncols(),
                data@.len() == i * cols,
                forall|a: int, b: int|
                    0 <= a < i && 0 <= b < cols ==> (#[trigger] data@[a * cols + b]).model()
                        == madd(self.cell(a, b), other.cell(a, b)),
        {
            for j in 0..cols
                invariant
                    rows as int == self.nrows(),
                    cols as int == self.ncols(),
                    self.nrows() == other.nrows(),
                    self.ncols() == other.ncols(),
                    i < rows,
                    data@.len() == i * cols + j,
                    forall|a: int, b: int|
                        0 <= a < i && 0 <= b < cols ==> (#[trigger] data@[a * cols + b]).model()
                            == madd(self.cell(a, b), other.cell(a, b)),
                    forall|b: int|
                        0 <= b < j ==> (#[trigger] data@[i * cols + b]).model() == madd(
                            self.cell(i as int, b),
                            other.cell(i as int, b),
                        ),
            {
                let x = self.get(i, j);
                let y = other.get(i, j);
                data.push(x.add(&y));
                proof {
                    assert forall|a: int, b: int| 0 <= a < i && 0 <= b < cols implies (
                    #[trigger] data@[a * cols + b]).model() == madd(
                        self.cell(a, b),
                        other.cell(a, b),
                    ) by {
                        lemma_rm_index(a, b, i as int, cols as int);
                    };
                }
            }
            proof {
                assert((i + 1) * cols == i * cols + cols) by (nonlinear_arith);
            }
        }
        let r = Matrix { rows, cols, data };
        proof {
            assert forall|i: int, j: int|
                0 <= i < self.nrows() && 0 <= j < self.ncols() implies r.cell(i, j) == madd(
                self.cell(i, j),
                other.cell(i, j),
            ) by {
                lemma_rm_index(i, j, rows as int, cols as int);
            };
        }
        r
    }

    /// Entrywise additive inverse.
    pub fn neg(&self) -> (r: Matrix<T>)
        ensures
            r.nrows() == self.nrows(),
            r.ncols() == self.ncols(),
            forall|i: int, j: int|
                0 <= i < self.nrows() && 0 <= j < self.ncols() ==> r.cell(i, j) == mneg(
                    self.cell(i, j),
                ),
    {
        let (rows, cols) = self.dim();
        let mut data: Vec<T> = Vec::new();
        proof {
            assert(0 * (cols as int) == 0) by (nonlinear_arith);
        }
        for i in 0..rows
            invariant
                rows as int == self.nrows(),
                cols as int == self.ncols(),
                data@.len() == i * cols,
                forall|a: int, b: int|
                    0 <= a < i && 0 <= b < cols ==> (#[trigger] data@[a * cols + b]).model()
                        == mneg(self.cell(a, b)),
        {
            for j in 0..cols
                invariant
                    rows as int == self.nrows(),
                    cols as int == self.ncols(),
                    i < rows,
                    data@.len() == i * cols + j,
                    forall|a: int, b: int|
                        0 <= a < i && 0 <= b < cols ==> (#[trigger] data@[a * cols + b]).model()
                            == mneg(self.cell(a, b)),
                    forall|b: int|
                        0 <= b < j ==> (#[trigger] data@[i * cols + b]).model() == mneg(
                            self.cell(i as int, b),
                        ),
            {
                let x = self.get(i, j);
                data.push(x.neg());
                proof {
                    assert forall|a: int, b: int| 0 <= a < i && 0 <= b < cols implies (
                    #[trigger] data@[a * cols + b]).model() == mneg(self.cell(a, b)) by {
                        lemma_rm_index(a, b, i as int, cols as int);
                    };
                }
            }
            proof {
                assert((i + 1) * cols == i * cols + cols) by (nonlinear_arith);
            }
        }
        let r = Matrix { rows, cols, data };
        proof {
            assert forall|i: int, j: int|
                0 <= i < self.nrows() && 0 <= j < self.ncols() implies r.cell(i, j) == mneg(
                self.cell(i, j),
            ) by {
                lemma_rm_index(i, j, rows as int, cols as int);
            };
        }
        r
    }

    /// Entrywise scalar action.
    pub fn scalar_mul(&self, other: &Scalar) -> (r: Matrix<T>)
        ensures
            r.nrows() == self.nrows(),
            r.ncols() == self.ncols(),
            forall|i: int, j: int|
                0 <= i < self.nrows() && 0 <= j < self.ncols() ==> r.cell(i, j) == mscale(
                    self.cell(i, j),
                    fr_val(*other),
                ),
    {
        let (rows, cols) = self.dim();
        let mut data: Vec<T> = Vec::new();
        proof {
            assert(0 * (cols as int) == 0) by (nonlinear_arith);
        }
        for i in 0..rows
            invariant
                rows as int == self.nrows(),
                cols as int == self.ncols(),
                data@.len() == i * cols,
                forall|a: int, b: int|
                    0 <= a < i && 0 <= b < cols ==> (#[trigger] data@[a * cols + b]).model()
                        == mscale(self.cell(a, b), fr_val(*other)),
        {
            for j in 0..cols
                invariant
                    rows as int == self.nrows(),
                    cols as int == self.ncols(),
                    i < rows,
                    data@.len() == i * cols + j,
                    forall|a: int, b: int|
                        0 <= a < i && 0 <= b < cols ==> (#[trigger] data@[a * cols + b]).model()
                            == mscale(self.cell(a, b), fr_val(*other)),
                    forall|b: int|
                        0 <= b < j ==> (#[trigger] data@[i * cols + b]).model() == mscale(
                            self.cell(i as int, b),
                            fr_val(*other),
                        ),
            {
                let x = self.get(i, j);
                data.push(x.scale(other));
                proof {
                    assert forall|a: int, b: int| 0 <= a < i && 0 <= b < cols implies (
                    #[trigger] data@[a * cols + b]).model() == mscale(
                        self.cell(a, b),
                        fr_val(*other),
                    ) by {
                        lemma_rm_index(a, b, i as int, cols as int);
                    };
                }
            }
            proof {
                assert((i + 1) * cols == i * cols + cols) by (nonlinear_arith);
            }
        }
        let r = Matrix { rows, cols, data };
        proof {
            assert forall|i: int, j: int|
                0 <= i < self.nrows() && 0 <= j < self.ncols() implies r.cell(i, j) == mscale(
                self.cell(i, j),
                fr_val(*other),
            ) by {
                lemma_rm_index(i, j, rows as int, cols as int);
            };
        }
        r
    }

    /// The transposed matrix.
    pub fn transpose(&self) -> (r: Matrix<T>)
        ensures
            r.nrows() == self.ncols(),
            r.ncols() == self.nrows(),
            forall|i: int, j: int|
                0 <= i < self.ncols() && 0 <= j < self.nrows() ==> r.entry(i, j) == self.entry(
                    j,
                    i,
                ),
    {
        let (rows, cols) = self.dim();
        let mut data: Vec<T> = Vec::new();
        proof {
            assert(0 * (rows as int) == 0) by (nonlinear_arith);
        }
        for i in 0..cols
            invariant
                rows as int == self.nrows(),
                cols as int == self.ncols(),
                data@.len() == i * rows,
                forall|a: int, b: int|
                    0 <= a < i && 0 <= b < rows ==> #[trigger] data@[a * rows + b] == self.entry(
                        b,
                        a,
                    ),
        {
            for j in 0..rows
                invariant
                    rows as int == self.nrows(),
                    cols as int == self.ncols(),
                    i < cols,
                    data@.len() == i * rows + j,
                    forall|a: int, b: int|
                        0 <= a < i && 0 <= b < rows ==> #[trigger] data@[a * rows + b]
                            == self.entry(b, a),
                    forall|b: int|
                        0 <= b < j ==> #[trigger] data@[i * rows + b] == self.entry(
                            b,
                            i as int,
                        ),
            {
                data.push(self.get(j, i));
                proof {
                    assert forall|a: int, b: int| 0 <= a < i && 0 <= b < rows implies #[trigger] data@[a
                        * rows + b] == self.entry(b, a) by {
                        lemma_rm_index(a, b, i as int, rows as int);
                    };
                }
            }
            proof {
                assert((i + 1) * rows == i * rows + rows) by (nonlinear_arith);
            }
        }
        let r = Matrix { rows: cols, cols: rows, data };
        proof {
            assert forall|i: int, j: int|
                0 <= i < self.ncols() && 0 <= j < self.nrows() implies r.entry(i, j) == self.entry(
                j,
                i,
            ) by {
                lemma_rm_index(i, j, cols as int, rows as int);
            };
        }
        r
    }

    /// Standard matrix multiplication with a scalar matrix on the right: the
    /// cell at `(i, j)` is the sum of the cells of row `i`, each scaled by the
    /// matching scalar of column `j` of `rhs`.
    pub fn right_mul(&self, rhs: &Matrix<Scalar>) -> (r: Matrix<T>)
        requires
            self.ncols() == rhs.nrows(),
        ensures
            r.nrows() == self.nrows(),
            r.ncols() == rhs.ncols(),
            forall|i: int, j: int|
                0 <= i < self.nrows() && 0 <= j < rhs.ncols() ==> r.cell(i, j) == dot(
                    self.row_models(i),
                    rhs.svals_col(j),
                    T::width(),
                ),
    {
        let (rows, inner) = self.dim();
        let (_, cols) = rhs.dim();
        let mut data: Vec<T> = Vec::new();
        proof {
            assert(0 * (cols as int) == 0) by (nonlinear_arith);
        }
        for i in 0..rows
            invariant
                rows as int == self.nrows(),
                inner as int == self.ncols(),
                cols as int == rhs.ncols(),
                self.ncols() == rhs.nrows(),
                data@.len() == i * cols,
                forall|a: int, b: int|
                    0 <= a < i && 0 <= b < cols ==> (#[trigger] data@[a * cols + b]).model() == dot(
                        self.row_models(a),
                        rhs.svals_col(b),
                        T::width(),
                    ),
        {
            for j in 0..cols
                invariant
                    rows as int == self.nrows(),
                    inner as int == self.ncols(),
                    cols as int == rhs.ncols(),
                    self.ncols() == rhs.nrows(),
                    i < rows,
                    data@.len() == i * cols + j,
                    forall|a: int, b: int|
                        0 <= a < i && 0 <= b < cols ==> (#[trigger] data@[a * cols + b]).model()
                            == dot(self.row_models(a), rhs.svals_col(b), T::width()),
                    forall|b: int|
                        0 <= b < j ==> (#[trigger] data@[i * cols + b]).model() == dot(
                            self.row_models(i as int),
                            rhs.svals_col(b),
                            T::width(),
                        ),
            {
                let mut acc = T::zero();
                proof {
                    assert(self.row_models(i as int).take(0) =~= Seq::<Seq<int>>::empty());
                    assert(rhs.svals_col(j as int).take(0) =~= Seq::<int>::empty());
                }
                for k in 0..inner
                    invariant
                        rows as int == self.nrows(),
                        inner as int == self.ncols(),
                        cols as int == rhs.ncols(),
                        self.ncols() == rhs.nrows(),
                        i < rows,
                        j < cols,
                        acc.model() == dot(
                            self.row_models(i as int).take(k as int),
                            rhs.svals_col(j as int).take(k as int),
                            T::width(),
                        ),
                {
                    let x = self.get(i, k);
                    let s = rhs.get(k, j);
                    acc = acc.add(&x.scale(&s));
                    proof {
                        lemma_dot_step(
                            self.row_models(i as int),
                            rhs.svals_col(j as int),
                            T::width(),
                            k as int,
                        );
                    }
                }
                proof {
                    assert(self.row_models(i as int).take(inner as int) =~= self.row_models(
                        i as int,
                    ));
                    assert(rhs.svals_col(j as int).take(inner as int) =~= rhs.svals_col(j as int));
                }
                data.push(acc);
                proof {
                    assert forall|a: int, b: int| 0 <= a < i && 0 <= b < cols implies (
                    #[trigger] data@[a * cols + b]).model() == dot(
                        self.row_models(a),
                        rhs.svals_col(b),
                        T::width(),
                    ) by {
                        lemma_rm_index(a, b, i as int, cols as int);
                    };
                }
            }
            proof {
                assert((i + 1) * cols == i * cols + cols) by (nonlinear_arith);
            }
        }
        let r = Matrix { rows, cols, data };
        proof {
            assert forall|i: int, j: int|
                0 <= i < self.nrows() && 0 <= j < rhs.ncols() implies r.cell(i, j) == dot(
                self.row_models(i),
                rhs.svals_col(j),
                T::width(),
            ) by {
                lemma_rm_index(i, j, rows as int, cols as int);
            };
        }
        r
    }

    /// Standard matrix multiplication with a scalar matrix on the left: the
    /// cell at `(i, j)` is the sum of the cells of column `j`, each scaled by
    /// the matching scalar of row `i` of `lhs`.
    pub fn left_mul(&self, lhs: &Matrix<Scalar>) -> (r: Matrix<T>)
        requires
            lhs.ncols() == self.nrows(),
        ensures
            r.nrows() == lhs.nrows(),
            r.ncols() == self.ncols(),
            forall|i: int, j: int|
                0 <= i < lhs.nrows() && 0 <= j < self.ncols() ==> r.cell(i, j) == dot(
                    self.col_models(j),
                    lhs.svals_row(i),
                    T::width(),
                ),
    {
        let (rows, _) = lhs.dim();
        let (inner, cols) = self.dim();
        let mut data: Vec<T> = Vec::new();
        proof {
            assert(0 * (cols as int) == 0) by (nonlinear_arith);
        }
        for i in 0..rows
            invariant
                rows as int == lhs.nrows(),
                inner as int == self.nrows(),
                cols as int == self.ncols(),
                lhs.ncols() == self.nrows(),
                data@.len() == i * cols,
                forall|a: int, b: int|
                    0 <= a < i && 0 <= b < cols ==> (#[trigger] data@[a * cols + b]).model() == dot(
                        self.col_models(b),
                        lhs.svals_row(a),
                        T::width(),
                    ),
        {
            for j in 0..cols
                invariant
                    rows as int == lhs.nrows(),
                    inner as int == self.nrows(),
                    cols as int == self.ncols(),
                    lhs.ncols() == self.nrows(),
                    i < rows,
                    data@.len() == i * cols + j,
                    forall|a: int, b: int|
                        0 <= a < i && 0 <= b < cols ==> (#[trigger] data@[a * cols + b]).model()
                            == dot(self.col_models(b), lhs.svals_row(a), T::width()),
                    forall|b: int|
                        0 <= b < j ==> (#[trigger] data@[i * cols + b]).model() == dot(
                            self.col_models(b),
                            lhs.svals_row(i as int),
                            T::width(),
                        ),
            {
                let mut acc = T::zero();
                proof {
                    assert(self.col_models(j as int).take(0) =~= Seq::<Seq<int>>::empty());
                    assert(lhs.svals_row(i as int).take(0) =~= Seq::<int>::empty());
                }
                for k in 0..inner
                    invariant
                        rows as int == lhs.nrows(),
                        inner as int == self.nrows(),
                        cols as int == self.ncols(),
                        lhs.ncols() == self.nrows(),
                        i < rows,
                        j < cols,
                        acc.model() == dot(
                            self.col_models(j as int).take(k as int),
                            lhs.svals_row(i as int).take(k as int),
                            T::width(),
                        ),
                {
                    let x = self.get(k, j);
                    let s = lhs.get(i, k);
                    acc = acc.add(&x.scale(&s));
                    proof {
                        lemma_dot_step(
                            self.col_models(j as int),
                            lhs.svals_row(i as int),
                            T::width(),
                            k as int,
                        );
                    }
                }
                proof {
                    assert(self.col_models(j as int).take(inner as int) =~= self.col_models(
                        j as int,
                    ));
                    assert(lhs.svals_row(i as int).take(inner as int) =~= lhs.svals_row(i as int));
                }
                data.push(acc);
                proof {
                    assert forall|a: int, b: int| 0 <= a < i && 0 <= b < cols implies (
                    #[trigger] data@[a * cols + b]).model() == dot(
                        self.col_models(b),
                        lhs.svals_row(a),
                        T::width(),
                    ) by {
                        lemma_rm_index(a, b, i as int, cols as int);
                    };
                }
            }
            proof {
                assert((i + 1) * cols == i * cols + cols) by (nonlinear_arith);
            }
        }
        let r = Matrix { rows, cols, data };
        proof {
            assert forall|i: int, j: int|
                0 <= i < lhs.nrows() && 0 <= j < self.ncols() implies r.cell(i, j) == dot(
                self.col_models(j),
                lhs.svals_row(i),
                T::width(),
            ) by {
                lemma_rm_index(i, j, rows as int, cols as int);
            };
        }
        r
    }
}

impl<T: Element> PartialEq for Matrix<T> {
    fn eq(&self, other: &Matrix<T>) -> (r: bool) {
        proof {
            use_type_invariant(self);
            use_type_invariant(other);
        }
        let (rows, cols) = self.dim();
        let (orows, ocols) = other.dim();
        if rows != orows || cols != ocols {
            return false;
        }
        let n = self.data.len();
        let on = other.data.len();
        if n != on {
            return false;
        }
        for k in 0..n
            invariant
                n == self.data@.len(),
                n == other.data@.len(),
                forall|a: int|
                    0 <= a < k ==> (#[trigger] self.data@[a].model()) == other.data@[a].model(),
        {
            if !self.data[k].eq_elem(&other.data[k]) {
                proof {
                    assert(self.flat_models()[k as int] != other.flat_models()[k as int]);
                }
                return false;
            }
        }
        proof {
            assert(self.flat_models() =~= other.flat_models());
        }
        true
    }
}

impl<T: Element> vstd::std_specs::cmp::PartialEqSpecImpl for Matrix<T> {
    open spec fn obeys_eq_spec() -> bool {
        true
    }

    open spec fn eq_spec(&self, other: &Matrix<T>) -> bool {
        self.nrows() == other.nrows() && self.ncols() == other.ncols() && self.flat_models()
            == other.flat_models()
    }
}

/// Collapse a column vector in matrix form into a plain vector.
pub fn col_vec_to_vec<T: Element>(mat: &Matrix<T>) -> (r: Vec<T>)
    requires
        mat.ncols() == 1,
    ensures
        r@.len() == mat.nrows(),
        forall|i: int| 0 <= i < mat.nrows() ==> r@[i] == mat.entry(i, 0),
{
    let (rows, _) = mat.dim();
    let mut r: Vec<T> = Vec::new();
    for i in 0..rows
        invariant
            rows as int == mat.nrows(),
            mat.ncols() == 1,
            r@.len() == i,
            forall|a: int| 0 <= a < i ==> r@[a] == mat.entry(a, 0),
    {
        r.push(mat.get(i, 0));
    }
    r
}

/// Expand a plain vector into a column vector in matrix form.
pub fn vec_to_col_vec<T: Element>(vec: &Vec<T>) -> (r: Matrix<T>)
    ensures
        r.nrows() == vec@.len(),
        r.ncols() == 1,
        forall|i: int| 0 <= i < vec@.len() ==> r.entry(i, 0) == vec@[i],
{
    let n = vec.len();
    let mut data: Vec<T> = Vec::new();
    for i in 0..n
        invariant
            n == vec@.len(),
            data@.len() == i,
            forall|a: int| 0 <= a < i ==> data@[a] == vec@[a],
    {
        data.push(vec[i]);
    }
    proof {
        assert(data@.len() == n * 1) by (nonlinear_arith)
            requires
                data@.len() == n,
        ;
    }
    let r = Matrix { rows: n, cols: 1, data };
    proof {
        assert forall|i: int| 0 <= i < vec@.len() implies r.entry(i, 0) == vec@[i] by {
            assert(i * r.ncols() + 0 == i) by (nonlinear_arith)
                requires
                    r.ncols() == 1,
            ;
        };
    }
    r
}

/// Law: a dot product is exactly the sum of the cells scaled elementwise:
/// the `left_mul` and `right_mul` contracts agree with the elementwise
/// `scalar_mul`-and-sum reading of matrix multiplication.
pub proof fn lemma_dot_is_scaled_sum(cells: Seq<Seq<int>>, ss: Seq<int>, w: nat)
    requires
        cells.len() == ss.len(),
    ensures
        dot(cells, ss, w) == msum(Seq::new(cells.len(), |k: int| mscale(cells[k], ss[k])), w),
    decreases cells.len(),
{
    let scaled = Seq::new(cells.len(), |k: int| mscale(cells[k], ss[k]));
    if cells.len() == 0 {
        assert(scaled =~= Seq::<Seq<int>>::empty());
    } else {
        lemma_dot_is_scaled_sum(cells.drop_last(), ss.drop_last(), w);
        let inner = Seq::new(
            cells.drop_last().len(),
            |k: int| mscale(cells.drop_last()[k], ss.drop_last()[k]),
        );
        assert(scaled.drop_last() =~= inner);
        assert(scaled.last() == mscale(cells.last(), ss.last()));
        assert(msum(scaled, w) == madd(msum(inner, w), mscale(cells.last(), ss.last())));
    }
}

/// Law: matrix multiplication distributes over matrix addition: the cell of
/// a product whose left operand is an entrywise sum is the entrywise sum of
/// the two product cells.
pub proof fn lemma_dot_distributes(c1: Seq<Seq<int>>, c2: Seq<Seq<int>>, ss: Seq<int>, w: nat)
    requires
        c1.len() == c2.len(),
        c1.len() == ss.len(),
        forall|k: int| 0 <= k < c1.len() ==> (#[trigger] c1[k]).len() == w,
        forall|k: int| 0 <= k < c2.len() ==> (#[trigger] c2[k]).len() == w,
    ensures
        dot(Seq::new(c1.len(), |k: int| madd(c1[k], c2[k])), ss, w) == madd(
            dot(c1, ss, w),
            dot(c2, ss, w),
        ),
    decreases c1.len(),
{
    let summed = Seq::new(c1.len(), |k: int| madd(c1[k], c2[k]));
    if c1.len() == 0 {
        lemma_dot_len(c1, ss, w);
        assert(madd(mzero(w), mzero(w)) =~= mzero(w));
    } else {
        lemma_dot_distributes(c1.drop_last(), c2.drop_last(), ss.drop_last(), w);
        let inner = Seq::new(
            c1.drop_last().len(),
            |k: int| madd(c1.drop_last()[k], c2.drop_last()[k]),
        );
        assert(summed.drop_last() =~= inner);
        assert(summed.last() == madd(c1.last(), c2.last()));
        crate::data_structures::lemma_mscale_distributes(c1.last(), c2.last(), ss.last());
        lemma_dot_len(c1.drop_last(), ss.drop_last(), w);
        lemma_dot_len(c2.drop_last(), ss.drop_last(), w);
        let p = dot(c1.drop_last(), ss.drop_last(), w);
        let q = dot(c2.drop_last(), ss.drop_last(), w);
        let u = mscale(c1.last(), ss.last());
        let v = mscale(c2.last(), ss.last());
        lemma_madd_rearrange(p, q, u, v);
    }
}

/// Sums of four models may be regrouped freely.
proof fn lemma_madd_rearrange(p: Seq<int>, q: Seq<int>, u: Seq<int>, v: Seq<int>)
    requires
        p.len() == q.len(),
        p.len() == u.len(),
        p.len() == v.len(),
    ensures
        madd(madd(p, q), madd(u, v)) == madd(madd(p, u), madd(q, v)),
{
    assert forall|i: int| 0 <= i < p.len() implies #[trigger] madd(madd(p, q), madd(u, v))[i]
        == madd(madd(p, u), madd(q, v))[i] by {
        let r = fr_order();
        vstd::arithmetic::div_mod::lemma_add_mod_noop(p[i] + q[i], u[i] + v[i], r);
        vstd::arithmetic::div_mod::lemma_add_mod_noop(p[i] + u[i], q[i] + v[i], r);
    };
    assert(madd(madd(p, q), madd(u, v)) =~= madd(madd(p, u), madd(q, v)));
}

/// Scalar fold of pairwise products modulo the group order: the value of one
/// cell of a product of scalar matrices.
pub open spec fn sdot(xs: Seq<int>, ys: Seq<int>) -> int
    decreases xs.len(),
{
    if xs.len() == 0 || ys.len() == 0 {
        0
    } else {
        (sdot(xs.drop_last(), ys.drop_last()) + (xs.last() * ys.last()) % fr_order()) % fr_order()
    }
}

/// A width-one dot product is the scalar fold of the first components.
pub proof fn lemma_dot_as_sdot(cells: Seq<Seq<int>>, ss: Seq<int>)
    requires
        cells.len() == ss.len(),
        forall|k: int| 0 <= k < cells.len() ==> (#[trigger] cells[k]).len() == 1,
    ensures
        dot(cells, ss, 1) == seq![sdot(crate::com_t::col0(cells), ss)],
    decreases cells.len(),
{
    let xs = crate::com_t::col0(cells);
    if cells.len() == 0 {
        assert(dot(cells, ss, 1) =~= seq![0int]);
        assert(xs.len() == 0);
    } else {
        assert(forall|k: int|
            0 <= k < cells.drop_last().len() ==> (#[trigger] cells.drop_last()[k]).len() == 1);
        lemma_dot_as_sdot(cells.drop_last(), ss.drop_last());
        assert(crate::com_t::col0(cells.drop_last()) =~= xs.drop_last());
        assert(xs.last() == cells.last()[0]);
        assert(dot(cells, ss, 1) =~= seq![sdot(xs, ss)]);
    }
}

proof fn lemma_sdot_bound(xs: Seq<int>, ys: Seq<int>)
    ensures
        0 <= sdot(xs, ys) < fr_order(),
    decreases xs.len(),
{
    if xs.len() == 0 || ys.len() == 0 {
    } else {
        lemma_sdot_bound(xs.drop_last(), ys.drop_last());
        vstd::arithmetic::div_mod::lemma_mod_bound(
            sdot(xs.drop_last(), ys.drop_last()) + (xs.last() * ys.last()) % fr_order(),
            fr_order(),
        );
    }
}

proof fn lemma_sdot_zero(xs: Seq<int>, ys: Seq<int>)
    requires
        forall|i: int| 0 <= i < ys.len() ==> #[trigger] ys[i] == 0,
    ensures
        sdot(xs, ys) == 0,
    decreases xs.len(),
{
    if xs.len() == 0 || ys.len() == 0 {
    } else {
        assert(forall|i: int| 0 <= i < ys.drop_last().len() ==> #[trigger] ys.drop_last()[i] == 0);
        lemma_sdot_zero(xs.drop_last(), ys.drop_last());
        assert(xs.last() * 0 == 0);
        vstd::arithmetic::div_mod::lemma_small_mod(0nat, fr_order() as nat);
    }
}

proof fn lemma_sdot_add(xs: Seq<int>, y1: Seq<int>, y2: Seq<int>)
    requires
        xs.len() == y1.len(),
        xs.len() == y2.len(),
    ensures
        sdot(xs, Seq::new(xs.len(), |i: int| (y1[i] + y2[i]) % fr_order())) == (sdot(xs, y1)
            + sdot(xs, y2)) % fr_order(),
    decreases xs.len(),
{
    let r = fr_order();
    let ysum = Seq::new(xs.len(), |i: int| (y1[i] + y2[i]) % r);
    if xs.len() == 0 {
        vstd::arithmetic::div_mod::lemma_small_mod(0nat, r as nat);
    } else {
        lemma_sdot_add(xs.drop_last(), y1.drop_last(), y2.drop_last());
        let inner = Seq::new(
            xs.drop_last().len(),
            |i: int| (y1.drop_last()[i] + y2.drop_last()[i]) % r,
        );
        assert(ysum.drop_last() =~= inner);
        assert(ysum.last() == (y1.last() + y2.last()) % r);
        let a = sdot(xs.drop_last(), y1.drop_last());
        let b = sdot(xs.drop_last(), y2.drop_last());
        let x = xs.last();
        let p = x * y1.last();
        let q = x * y2.last();
        // (x * ((y1 + y2) % r)) % r == (p + q) % r
        vstd::arithmetic::div_mod::lemma_mul_mod_noop_right(x, y1.last() + y2.last(), r);
        assert(x * (y1.last() + y2.last()) == x * y1.last() + x * y2.last()) by (nonlinear_arith);
        // fold the two previous sums together
        vstd::arithmetic::div_mod::lemma_add_mod_noop(a + b, p + q, r);
        vstd::arithmetic::div_mod::lemma_add_mod_noop(a + p % r, b + q % r, r);
        vstd::arithmetic::div_mod::lemma_add_mod_noop_right(a, p, r);
        vstd::arithmetic::div_mod::lemma_add_mod_noop_right(b, q, r);
        vstd::arithmetic::div_mod::lemma_add_mod_noop_right(a + b, p + q, r);
        assert(sdot(xs, ysum) == ((a + b) % r + (p + q) % r) % r);
        assert(((a + b) % r + (p + q) % r) % r == (a + b + (p + q)) % r);
        assert((sdot(xs, y1) + sdot(xs, y2)) % r == ((a + p % r) % r + (b + q % r) % r) % r);
        assert(((a + p % r) % r + (b + q % r) % r) % r == (a + p % r + (b + q % r)) % r);
        assert((a + p % r + (b + q % r)) % r == (a + b + (p % r + q % r)) % r);
        vstd::arithmetic::div_mod::lemma_add_mod_noop(p, q, r);
        vstd::arithmetic::div_mod::lemma_add_mod_noop_right(a + b, p % r + q % r, r);
    }
}

proof fn lemma_sdot_scale(xs: Seq<int>, ys: Seq<int>, t: int)
    requires
        xs.len() == ys.len(),
    ensures
        sdot(xs, Seq::new(xs.len(), |i: int| (ys[i] * t) % fr_order())) == (sdot(xs, ys) * t)
            % fr_order(),
    decreases xs.len(),
{
    let r = fr_order();
    let yscaled = Seq::new(xs.len(), |i: int| (ys[i] * t) % r);
    if xs.len() == 0 {
        assert(0int * t == 0);
        vstd::arithmetic::div_mod::lemma_small_mod(0nat, r as nat);
    } else {
        lemma_sdot_scale(xs.drop_last(), ys.drop_last(), t);
        let inner = Seq::new(xs.drop_last().len(), |i: int| (ys.drop_last()[i] * t) % r);
        assert(yscaled.drop_last() =~= inner);
        assert(yscaled.last() == (ys.last() * t) % r);
        let a = sdot(xs.drop_last(), ys.drop_last());
        let x = xs.last();
        let y = ys.last();
        // (x * ((y * t) % r)) % r == ((x * y) * t) % r
        vstd::arithmetic::div_mod::lemma_mul_mod_noop_right(x, y * t, r);
        assert(x * (y * t) == (x * y) * t) by (nonlinear_arith);
        // fold with the scaled prefix
        vstd::arithmetic::div_mod::lemma_add_mod_noop((a * t), ((x * y) * t), r);
        vstd::arithmetic::div_mod::lemma_mul_mod_noop_left(a + (x * y) % r, t, r);
        assert((a + (x * y) % r) * t == a * t + ((x * y) % r) * t) by (nonlinear_arith);
        vstd::arithmetic::div_mod::lemma_mul_mod_noop_left(x * y, t, r);
        assert(sdot(xs, yscaled) == ((a * t) % r + ((x * y) * t) % r) % r);
        assert(((a * t) % r + ((x * y) * t) % r) % r == (a * t + (x * y) * t) % r);
        assert((sdot(xs, ys) * t) % r == ((a + (x * y) % r) % r * t) % r);
        assert(((a + (x * y) % r) % r * t) % r == ((a + (x * y) % r) * t) % r);
        assert(((a + (x * y) % r) * t) % r == (a * t + ((x * y) % r) * t) % r);
        vstd::arithmetic::div_mod::lemma_add_mod_noop_right(a * t, ((x * y) % r) * t, r);
        vstd::arithmetic::div_mod::lemma_add_mod_noop_right(a * t, (x * y) * t, r);
    }
}

/// Law: multiplication of scalar matrices associates.  `arow` is one row of
/// the left matrix, `bcols[l]` is column `l` of the middle matrix, `brows[k]`
/// is row `k` of the middle matrix, and `ccol` is one column of the right
/// matrix: folding the already-multiplied row `arow * b` against `ccol`
/// equals folding `arow` against the already-multiplied column `b * ccol`.
pub proof fn lemma_sdot_assoc(
    arow: Seq<int>,
    brows: Seq<Seq<int>>,
    bcols: Seq<Seq<int>>,
    ccol: Seq<int>,
)
    requires
        brows.len() == arow.len(),
        bcols.len() == ccol.len(),
        forall|k: int| 0 <= k < brows.len() ==> (#[trigger] brows[k]).len() == ccol.len(),
        forall|l: int| 0 <= l < bcols.len() ==> (#[trigger] bcols[l]).len() == arow.len(),
        forall|k: int, l: int|
            0 <= k < brows.len() && 0 <= l < bcols.len() ==> (#[trigger] brows[k][l])
                == bcols[l][k],
    ensures
        sdot(Seq::new(ccol.len(), |l: int| sdot(arow, bcols[l])), ccol) == sdot(
            arow,
            Seq::new(arow.len(), |k: int| sdot(brows[k], ccol)),
        ),
    decreases ccol.len(),
{
    let r = fr_order();
    let t = ccol.len() as int;
    if ccol.len() == 0 {
        let zeros = Seq::new(arow.len(), |k: int| sdot(brows[k], ccol));
        assert(forall|k: int| 0 <= k < zeros.len() ==> #[trigger] zeros[k] == 0) by {
            assert forall|k: int| 0 <= k < zeros.len() implies #[trigger] zeros[k] == 0 by {
                assert(brows[k].len() == 0 || ccol.len() == 0);
            };
        };
        lemma_sdot_zero(arow, zeros);
    } else {
        let brows_short = Seq::new(brows.len(), |k: int| brows[k].drop_last());
        lemma_sdot_assoc(arow, brows_short, bcols.drop_last(), ccol.drop_last());
        // the two sides of the inductive hypothesis
        let lhs_in = Seq::new((t - 1) as nat, |l: int| sdot(arow, bcols.drop_last()[l]));
        let rhs_in = Seq::new(arow.len(), |k: int| sdot(brows_short[k], ccol.drop_last()));
        // the current sides
        let lhs_cells = Seq::new(t as nat, |l: int| sdot(arow, bcols[l]));
        let rhs_cells = Seq::new(arow.len(), |k: int| sdot(brows[k], ccol));
        assert(lhs_cells.drop_last() =~= lhs_in);
        assert(lhs_cells.last() == sdot(arow, bcols[t - 1]));
        // unfold the left side one step
        assert(sdot(lhs_cells, ccol) == (sdot(lhs_in, ccol.drop_last()) + (sdot(
            arow,
            bcols[t - 1],
        ) * ccol.last()) % r) % r);
        // each right-side cell is its shortened form plus the last column term
        assert forall|k: int| 0 <= k < arow.len() implies #[trigger] rhs_cells[k] == (rhs_in[k]
            + (bcols[t - 1][k] * ccol.last()) % r) % r by {
            assert(brows[k].drop_last() =~= brows_short[k]);
            assert(brows[k].last() == brows[k][t - 1]);
            assert(brows[k][t - 1] == bcols[t - 1][k]);
        };
        let lastcol = Seq::new(arow.len(), |k: int| (bcols[t - 1][k] * ccol.last()) % r);
        assert(rhs_cells =~= Seq::new(arow.len(), |k: int| (rhs_in[k] + lastcol[k]) % r));
        lemma_sdot_add(arow, rhs_in, lastcol);
        lemma_sdot_scale(arow, bcols[t - 1], ccol.last());
        assert(lastcol =~= Seq::new(arow.len(), |k: int| (bcols[t - 1][k] * ccol.last()) % r));
        // fold both decompositions together
        let a = sdot(lhs_in, ccol.drop_last());
        let b = sdot(arow, rhs_in);
        let c = sdot(arow, bcols[t - 1]) * ccol.last();
        assert(a == b);
        lemma_sdot_bound(lhs_in, ccol.drop_last());
        assert(sdot(arow, rhs_cells) == (b + (c % r) % r) % r);
        vstd::arithmetic::div_mod::lemma_mod_twice(c, r);
        assert(sdot(lhs_cells, ccol) == (a + c % r) % r);
    }
}

/// Law: matrix multiplication distributes over matrix addition, at the level
/// of the `add` and `right_mul` contracts: if `summed` is the entrywise sum
/// of `a` and `b`, then each product cell of `summed` with a scalar matrix
/// `c` is the entrywise sum of the two product cells.
pub proof fn lemma_right_mul_distributes<T: Element>(
    a: Matrix<T>,
    b: Matrix<T>,
    c: Matrix<Scalar>,
    summed: Matrix<T>,
    i: int,
    j: int,
)
    requires
        a.nrows() == b.nrows(),
        a.ncols() == b.ncols(),
        a.ncols() == c.nrows(),
        summed.nrows() == a.nrows(),
        summed.ncols() == a.ncols(),
        0 <= i < a.nrows(),
        0 <= j < c.ncols(),
        forall|x: int, y: int|
            0 <= x < a.nrows() && 0 <= y < a.ncols() ==> summed.cell(x, y) == madd(
                a.cell(x, y),
                b.cell(x, y),
            ),
        forall|x: int, y: int|
            0 <= x < a.nrows() && 0 <= y < a.ncols() ==> (#[trigger] a.cell(x, y)).len()
                == T::width(),
        forall|x: int, y: int|
            0 <= x < b.nrows() && 0 <= y < b.ncols() ==> (#[trigger] b.cell(x, y)).len()
                == T::width(),
    ensures
        dot(summed.row_models(i), c.svals_col(j), T::width()) == madd(
            dot(a.row_models(i), c.svals_col(j), T::width()),
            dot(b.row_models(i), c.svals_col(j), T::width()),
        ),
{
    let n = a.ncols() as nat;
    assert(summed.row_models(i) =~= Seq::new(
        n,
        |k: int| madd(a.row_models(i)[k], b.row_models(i)[k]),
    ));
    lemma_dot_distributes(a.row_models(i), b.row_models(i), c.svals_col(j), T::width());
}

/// Law: multiplication of scalar matrices associates, at the level of the
/// `right_mul` contract: if `ab` is the product of `a` and `b` and `bc` the
/// product of `b` and `c`, then multiplying `ab` by `c` and multiplying `a`
/// by `bc` give the same cell at every position.
pub proof fn lemma_right_mul_assoc(
    a: Matrix<Scalar>,
    b: Matrix<Scalar>,
    c: Matrix<Scalar>,
    ab: Matrix<Scalar>,
    bc: Matrix<Scalar>,
    i: int,
    j: int,
)
    requires
        a.ncols() == b.nrows(),
        b.ncols() == c.nrows(),
        ab.nrows() == a.nrows(),
        ab.ncols() == b.ncols(),
        bc.nrows() == b.nrows(),
        bc.ncols() == c.ncols(),
        0 <= i < a.nrows(),
        0 <= j < c.ncols(),
        forall|x: int, y: int|
            0 <= x < ab.nrows() && 0 <= y < ab.ncols() ==> ab.cell(x, y) == dot(
                a.row_models(x),
                b.svals_col(y),
                1,
            ),
        forall|x: int, y: int|
            0 <= x < bc.nrows() && 0 <= y < bc.ncols() ==> bc.cell(x, y) == dot(
                b.row_models(x),
                c.svals_col(y),
                1,
            ),
    ensures
        dot(ab.row_models(i), c.svals_col(j), 1) == dot(a.row_models(i), bc.svals_col(j), 1),
{
    let arow = a.svals_row(i);
    let ccol = c.svals_col(j);
    let brows = Seq::new(b.nrows() as nat, |k: int| b.svals_row(k));
    let bcols = Seq::new(b.ncols() as nat, |l: int| b.svals_col(l));
    assert(crate::com_t::col0(a.row_models(i)) =~= arow);
    // each cell of the row of `ab` is a scalar fold of `arow` with a column
    assert forall|l: int| 0 <= l < b.ncols() implies #[trigger] ab.row_models(i)[l] == seq![
        sdot(arow, bcols[l]),
    ] by {
        lemma_dot_as_sdot(a.row_models(i), b.svals_col(l));
    };
    assert(crate::com_t::col0(ab.row_models(i)) =~= Seq::new(
        ccol.len(),
        |l: int| sdot(arow, bcols[l]),
    ));
    assert(forall|l: int|
        0 <= l < ab.row_models(i).len() ==> (#[trigger] ab.row_models(i)[l]).len() == 1);
    lemma_dot_as_sdot(ab.row_models(i), ccol);
    // each cell of the column of `bc` is a scalar fold of a row with `ccol`
    assert forall|k: int| 0 <= k < b.nrows() implies #[trigger] bc.svals_col(j)[k] == sdot(
        brows[k],
        ccol,
    ) by {
        lemma_dot_as_sdot(b.row_models(k), c.svals_col(j));
        assert(crate::com_t::col0(b.row_models(k)) =~= brows[k]);
        assert(bc.cell(k, j) == seq![sdot(brows[k], ccol)]);
    };
    assert(bc.svals_col(j) =~= Seq::new(arow.len(), |k: int| sdot(brows[k], ccol)));
    lemma_dot_as_sdot(a.row_models(i), bc.svals_col(j));
    lemma_sdot_assoc(arow, brows, bcols, ccol);
}

} // verus!
