//! Dense complex matrices in column-major order.

use crate::error::ExecError;
use crate::scalar::{amp_add, amp_conj, amp_mul, amp_of_ints};
use crate::scalar::{complex_conj, complex_product, complex_sum, zero};
use num_complex::Complex64;
use vstd::arithmetic::div_mod::lemma_fundamental_div_mod_converse;
use vstd::prelude::*;

verus! {

/// The scalar type that a matrix stores.
#[derive(Clone, Copy, Debug, PartialEq, Eq, Structural)]
pub enum Presicion {
    Single,
    Double,
    SingleComplex,
    DoubleComplex,
}

/// A matrix of `size[0]` rows and `size[1]` columns. The entry in row `i` and
/// column `j` is stored at `i + size[0] * j`.
#[derive(Debug)]
pub struct ComplexDoubleMatrix {
    pub size: [u32; 2],
    pub data: Vec<Complex64>,
}

/// An index inside an `m` by `n` column-major matrix lies inside its data.
pub proof fn lemma_index_bound(i: int, j: int, m: int, n: int)
    requires
        0 <= i < m,
        0 <= j < n,
    ensures
        0 <= i + m * j < m * n,
        0 <= m * j <= m * n - m,
{
    assert(m * j <= m * (n - 1)) by (nonlinear_arith)
        requires
            0 <= j <= n - 1,
            0 <= m,
    ;
    assert(m * (n - 1) == m * n - m) by (nonlinear_arith);
    assert(0 <= m * j) by (nonlinear_arith)
        requires
            0 <= j,
            0 <= m,
    ;
}

/// A position below `a * b` splits into a quotient below `a` and a remainder
/// below `b`.
pub proof fn lemma_split(i: int, a: int, b: int)
    requires
        0 <= i < a * b,
        0 <= a,
        0 < b,
    ensures
        0 <= i / b < a,
        0 <= i % b < b,
{
    assert(0 <= i / b < a && 0 <= i % b < b) by (nonlinear_arith)
        requires
            0 <= i < a * b,
            0 <= a,
            0 < b,
    ;
}

/// Position `i1 * r2 + i2` of a Kronecker product splits back into `i1`,
/// the position in the left factor, and `i2`, the position in the right
/// factor, which has `r2` rows (or columns).
pub proof fn lemma_kron_position(i1: int, i2: int, r2: int)
    requires
        0 <= i1,
        0 <= i2 < r2,
    ensures
        (i1 * r2 + i2) / r2 == i1,
        (i1 * r2 + i2) % r2 == i2,
{
    lemma_fundamental_div_mod_converse(i1 * r2 + i2, r2, i1, i2);
}

/// The entry in row `i` and column `j` of column-major data with `m` rows.
pub open spec fn cell(s: Seq<Complex64>, m: int, i: int, j: int) -> Complex64 {
    s[i + m * j]
}

/// The first `upto` terms of row `i` of `a` times column `j` of `b`, where
/// `a` has `m` rows and `b` has `k` rows, added from the left starting at
/// zero.
pub open spec fn dot(
    a: Seq<Complex64>,
    b: Seq<Complex64>,
    m: int,
    k: int,
    i: int,
    j: int,
    upto: int,
) -> Complex64
    decreases upto,
{
    if upto <= 0 {
        zero()
    } else {
        complex_sum(
            dot(a, b, m, k, i, j, upto - 1),
            complex_product(cell(a, m, i, upto - 1), cell(b, k, upto - 1, j)),
        )
    }
}

/// The first `upto` terms of the inner product of `x` with itself, each
/// term the conjugate of an entry times the entry, added from the left
/// starting at zero.
pub open spec fn self_dot(x: Seq<Complex64>, upto: int) -> Complex64
    decreases upto,
{
    if upto <= 0 {
        zero()
    } else {
        complex_sum(
            self_dot(x, upto - 1),
            complex_product(complex_conj(x[upto - 1]), x[upto - 1]),
        )
    }
}

impl ComplexDoubleMatrix {
    pub open spec fn rows(&self) -> int {
        self.size[0] as int
    }

    pub open spec fn cols(&self) -> int {
        self.size[1] as int
    }

    /// The data fills the shape exactly.
    pub open spec fn wf(&self) -> bool {
        self.rows() * self.cols() == self.data@.len()
    }

    /// The entry in row `i` and column `j`.
    pub open spec fn entry(&self, i: int, j: int) -> Complex64 {
        cell(self.data@, self.rows(), i, j)
    }

    /// Tells whether the data fills the shape exactly.
    pub fn well_formed(&self) -> (r: bool)
        ensures
            r == self.wf(),
    {
        let rows: u64 = self.size[0] as u64;
        let cols: u64 = self.size[1] as u64;
        assert(rows * cols <= 0xFFFF_FFFF * 0xFFFF_FFFF) by (nonlinear_arith)
            requires
                rows <= 0xFFFF_FFFF,
                cols <= 0xFFFF_FFFF,
        ;
        rows * cols == self.data.len() as u64
    }

}

/// The operations of a dense matrix in column-major order, whatever scalar
/// it stores. The contracts here fix shapes and positions; an implementation
/// adds what it computes.
pub trait Matrix: Sized {
    /// The scalar stored.
    type Prec: Copy;

    /// The numbers of rows and of columns.
    spec fn dims(&self) -> (int, int);

    /// The entries, column after column.
    spec fn cells(&self) -> Seq<Self::Prec>;

    fn presicion(&self) -> Presicion;

    fn size(&self) -> (r: [u32; 2])
        ensures
            r[0] == self.dims().0,
            r[1] == self.dims().1,
    ;

    fn data(&self) -> (r: &Vec<Self::Prec>)
        ensures
            r@ == self.cells(),
    ;

    /// The matrix product. It exists exactly when both factors are filled
    /// and the inner dimensions agree.
    fn mul(&self, other: &Self) -> (r: Result<Self, ExecError>)
        ensures
            match r {
                Ok(c) => self.dims().0 * self.dims().1 == self.cells().len() && other.dims().0
                    * other.dims().1 == other.cells().len() && self.dims().1 == other.dims().0
                    && c.dims() == (self.dims().0, other.dims().1) && c.dims().0 * c.dims().1
                    == c.cells().len(),
                Err(e) => e == ExecError::DimensionMismatch && !(self.dims().0 * self.dims().1
                    == self.cells().len() && other.dims().0 * other.dims().1
                    == other.cells().len() && self.dims().1 == other.dims().0),
            },
    ;

    /// Every entry multiplied by the scalar. The shape is kept.
    fn scalmul(&self, scalar: Complex64) -> (r: Self)
        ensures
            r.dims() == self.dims(),
            r.cells().len() == self.cells().len(),
    ;

    /// The Kronecker product. It exists exactly when both factors are
    /// filled and the shape of the product fits in `u32`.
    fn kron(&self, other: &Self) -> (r: Result<Self, ExecError>)
        ensures
            match r {
                Ok(c) => self.dims().0 * self.dims().1 == self.cells().len() && other.dims().0
                    * other.dims().1 == other.cells().len() && c.dims() == (
                    self.dims().0 * other.dims().0,
                    self.dims().1 * other.dims().1,
                ) && c.dims().0 <= u32::MAX && c.dims().1 <= u32::MAX && c.dims().0 * c.dims().1
                    == c.cells().len(),
                Err(e) => e == ExecError::DimensionMismatch && !(self.dims().0 * self.dims().1
                    == self.cells().len() && other.dims().0 * other.dims().1
                    == other.cells().len() && self.dims().0 * other.dims().0 <= u32::MAX
                    && self.dims().1 * other.dims().1 <= u32::MAX),
            },
    ;

    /// The inner product of the entries with themselves.
    fn inner(&self) -> Self::Prec;

    /// The entry in row `i` and column `j`, if the matrix is filled and has
    /// such a position.
    fn at(&self, i: u32, j: u32) -> (r: Result<Self::Prec, ExecError>)
        ensures
            match r {
                Ok(v) => self.dims().0 * self.dims().1 == self.cells().len() && i < self.dims().0
                    && j < self.dims().1 && v == self.cells()[i + self.dims().0 * j],
                Err(e) => e == ExecError::DimensionMismatch && !(self.dims().0 * self.dims().1
                    == self.cells().len() && i < self.dims().0 && j < self.dims().1),
            },
    ;

    /// Row `i`, if the matrix is filled and has such a row.
    fn row(&self, i: u32) -> (r: Result<Vec<Self::Prec>, ExecError>)
        ensures
            match r {
                Ok(v) => self.dims().0 * self.dims().1 == self.cells().len() && i < self.dims().0
                    && v@.len() == self.dims().1 && forall|j: int|
                    0 <= j < self.dims().1 ==> #[trigger] v@[j] == self.cells()[i + self.dims().0
                        * j],
                Err(e) => e == ExecError::DimensionMismatch && !(self.dims().0 * self.dims().1
                    == self.cells().len() && i < self.dims().0),
            },
    ;

    /// Column `j`, if the matrix is filled and has such a column.
    fn col(&self, j: u32) -> (r: Result<Vec<Self::Prec>, ExecError>)
        ensures
            match r {
                Ok(v) => self.dims().0 * self.dims().1 == self.cells().len() && j < self.dims().1
                    && v@.len() == self.dims().0 && forall|i: int|
                    0 <= i < self.dims().0 ==> #[trigger] v@[i] == self.cells()[i + self.dims().0
                        * j],
                Err(e) => e == ExecError::DimensionMismatch && !(self.dims().0 * self.dims().1
                    == self.cells().len() && j < self.dims().1),
            },
    ;
}

impl Matrix for ComplexDoubleMatrix {
    type Prec = Complex64;

    open spec fn dims(&self) -> (int, int) {
        (self.rows(), self.cols())
    }

    open spec fn cells(&self) -> Seq<Complex64> {
        self.data@
    }

    fn presicion(&self) -> (r: Presicion)
        ensures
            r == Presicion::DoubleComplex,
    {
        Presicion::DoubleComplex
    }

    fn size(&self) -> (r: [u32; 2])
        ensures
            r == self.size,
    {
        self.size
    }

    fn data(&self) -> (r: &Vec<Complex64>)
        ensures
            r == &self.data,
    {
        &self.data
    }

    /// The entry in row `i` and column `j`. Fails with `DimensionMismatch`
    /// exactly when the matrix is not well formed or the position lies
    /// outside it.
    fn at(&self, i: u32, j: u32) -> (r: Result<Complex64, ExecError>)
        ensures
            match r {
                Ok(v) => self.wf() && i < self.rows() && j < self.cols() && v == self.entry(
                    i as int,
                    j as int,
                ),
                Err(e) => e == ExecError::DimensionMismatch && !(self.wf() && i < self.rows() && j
                    < self.cols()),
            },
    {
        if !self.well_formed() || i >= self.size[0] || j >= self.size[1] {
            return Err(ExecError::DimensionMismatch);
        }
        let m: usize = self.size[0] as usize;
        let len: usize = self.data.len();
        proof {
            lemma_index_bound(i as int, j as int, self.rows(), self.cols());
        }
        Ok(self.data[i as usize + m * (j as usize)])
    }

    /// Row `i`, from the first column to the last. Fails with
    /// `DimensionMismatch` exactly when the matrix is not well formed or has
    /// no such row.
    fn row(&self, i: u32) -> (r: Result<Vec<Complex64>, ExecError>)
        ensures
            match r {
                Ok(v) => self.wf() && i < self.rows() && v@ == Seq::new(
                    self.cols() as nat,
                    |j: int| self.entry(i as int, j),
                ),
                Err(e) => e == ExecError::DimensionMismatch && !(self.wf() && i < self.rows()),
            },
    {
        if !self.well_formed() || i >= self.size[0] {
            return Err(ExecError::DimensionMismatch);
        }
        let m: usize = self.size[0] as usize;
        let n: usize = self.size[1] as usize;
        let len: usize = self.data.len();
        let mut ans: Vec<Complex64> = Vec::new();
        let mut j: usize = 0;
        while j < n
            invariant
                self.wf(),
                m == self.rows(),
                n == self.cols(),
                i < m,
                j <= n,
                len == self.data@.len(),
                ans@.len() == j,
                forall|c: int| 0 <= c < j ==> ans@[c] == self.entry(i as int, c),
            decreases n - j,
        {
            proof {
                lemma_index_bound(i as int, j as int, m as int, n as int);
            }
            ans.push(self.data[i as usize + m * j]);
            j += 1;
        }
        assert(ans@ =~= Seq::new(self.cols() as nat, |j: int| self.entry(i as int, j)));
        Ok(ans)
    }

    /// Column `j`, from the first row to the last. Fails with
    /// `DimensionMismatch` exactly when the matrix is not well formed or has
    /// no such column.
    fn col(&self, j: u32) -> (r: Result<Vec<Complex64>, ExecError>)
        ensures
            match r {
                Ok(v) => self.wf() && j < self.cols() && v@ == Seq::new(
                    self.rows() as nat,
                    |i: int| self.entry(i, j as int),
                ),
                Err(e) => e == ExecError::DimensionMismatch && !(self.wf() && j < self.cols()),
            },
    {
        if !self.well_formed() || j >= self.size[1] {
            return Err(ExecError::DimensionMismatch);
        }
        let m: usize = self.size[0] as usize;
        let n: usize = self.size[1] as usize;
        let len: usize = self.data.len();
        let mut ans: Vec<Complex64> = Vec::new();
        let mut i: usize = 0;
        while i < m
            invariant
                self.wf(),
                m == self.rows(),
                n == self.cols(),
                j < n,
                i <= m,
                len == self.data@.len(),
                ans@.len() == i,
                forall|c: int| 0 <= c < i ==> ans@[c] == self.entry(c, j as int),
            decreases m - i,
        {
            proof {
                lemma_index_bound(i as int, j as int, m as int, n as int);
            }
            ans.push(self.data[i + m * (j as usize)]);
            i += 1;
        }
        assert(ans@ =~= Seq::new(self.rows() as nat, |i: int| self.entry(i, j as int)));
        Ok(ans)
    }

    /// Every entry multiplied by `scalar`, the scalar on the left. The shape
    /// is kept.
    fn scalmul(&self, scalar: Complex64) -> (r: ComplexDoubleMatrix)
        ensures
            r.size == self.size,
            r.data@.len() == self.data@.len(),
            forall|c: int|
                0 <= c < self.data@.len() ==> r.data@[c] == complex_product(scalar, self.data@[c]),
    {
        let mut ans: Vec<Complex64> = Vec::new();
        let mut c: usize = 0;
        while c < self.data.len()
            invariant
                c <= self.data@.len(),
                ans@.len() == c,
                forall|d: int| 0 <= d < c ==> ans@[d] == complex_product(scalar, self.data@[d]),
            decreases self.data@.len() - c,
        {
            ans.push(amp_mul(scalar, self.data[c]));
            c += 1;
        }
        ComplexDoubleMatrix { size: self.size, data: ans }
    }

    /// The inner product of the data with itself: the sum over all entries
    /// of the conjugate of the entry times the entry. Its real part is the
    /// squared norm.
    fn inner(&self) -> (r: Complex64)
        ensures
            r == self_dot(self.data@, self.data@.len() as int),
    {
        let mut acc: Complex64 = amp_of_ints(0, 0);
        let mut c: usize = 0;
        while c < self.data.len()
            invariant
                c <= self.data@.len(),
                acc == self_dot(self.data@, c as int),
            decreases self.data@.len() - c,
        {
            let x: Complex64 = self.data[c];
            acc = amp_add(acc, amp_mul(amp_conj(x), x));
            c += 1;
        }
        acc
    }

    /// The matrix product of `self` and `other`. Succeeds exactly when both
    /// are well formed and `self` has as many columns as `other` has rows;
    /// each entry is then the row of `self` times the column of `other`,
    /// added up from the first term to the last.
    fn mul(&self, other: &ComplexDoubleMatrix) -> (r: Result<ComplexDoubleMatrix, ExecError>)
        ensures
            match r {
                Ok(c) => self.wf() && other.wf() && self.cols() == other.rows() && c.wf()
                    && c.rows() == self.rows() && c.cols() == other.cols() && forall|
                    i: int,
                    j: int,
                |
                    0 <= i < c.rows() && 0 <= j < c.cols() ==> #[trigger] c.entry(i, j) == dot(
                        self.data@,
                        other.data@,
                        self.rows(),
                        self.cols(),
                        i,
                        j,
                        self.cols(),
                    ),
                Err(e) => e == ExecError::DimensionMismatch && !(self.wf() && other.wf()
                    && self.cols() == other.rows()),
            },
    {
        if !self.well_formed() || !other.well_formed() || self.size[1] != other.size[0] {
            return Err(ExecError::DimensionMismatch);
        }
        let m: usize = self.size[0] as usize;
        let k: usize = self.size[1] as usize;
        let n: usize = other.size[1] as usize;
        let alen: usize = self.data.len();
        let blen: usize = other.data.len();
        let mut ans: Vec<Complex64> = Vec::new();
        let mut j: usize = 0;
        while j < n
            invariant
                m == self.rows(),
                k == self.cols(),
                k == other.rows(),
                n == other.cols(),
                alen == self.data@.len(),
                blen == other.data@.len(),
                alen == m * k,
                blen == k * n,
                j <= n,
                ans@.len() == m * j,
                forall|ii: int, jj: int|
                    0 <= ii < m && 0 <= jj < j ==> #[trigger] cell(ans@, m as int, ii, jj) == dot(
                        self.data@,
                        other.data@,
                        m as int,
                        k as int,
                        ii,
                        jj,
                        k as int,
                    ),
            decreases n - j,
        {
            let mut i: usize = 0;
            while i < m
                invariant
                    m == self.rows(),
                    k == self.cols(),
                    k == other.rows(),
                    n == other.cols(),
                    alen == self.data@.len(),
                    blen == other.data@.len(),
                    alen == m * k,
                    blen == k * n,
                    j < n,
                    i <= m,
                    ans@.len() == m * j + i,
                    forall|ii: int, jj: int|
                        0 <= ii < m && 0 <= jj < j ==> #[trigger] cell(ans@, m as int, ii, jj)
                            == dot(self.data@, other.data@, m as int, k as int, ii, jj, k as int),
                    forall|ii: int|
                        0 <= ii < i ==> #[trigger] cell(ans@, m as int, ii, j as int) == dot(
                            self.data@,
                            other.data@,
                            m as int,
                            k as int,
                            ii,
                            j as int,
                            k as int,
                        ),
                decreases m - i,
            {
                let mut acc: Complex64 = amp_of_ints(0, 0);
                let mut l: usize = 0;
                while l < k
                    invariant
                        alen == self.data@.len(),
                        blen == other.data@.len(),
                        alen == m * k,
                        blen == k * n,
                        j < n,
                        i < m,
                        l <= k,
                        acc == dot(
                            self.data@,
                            other.data@,
                            m as int,
                            k as int,
                            i as int,
                            j as int,
                            l as int,
                        ),
                    decreases k - l,
                {
                    proof {
                        lemma_index_bound(i as int, l as int, m as int, k as int);
                        lemma_index_bound(l as int, j as int, k as int, n as int);
                    }
                    acc = amp_add(acc, amp_mul(self.data[i + m * l], other.data[l + k * j]));
                    l += 1;
                }
                let ghost before = ans@;
                ans.push(acc);
                proof {
                    assert forall|ii: int, jj: int| 0 <= ii < m && 0 <= jj < j implies #[trigger] cell(
                        ans@,
                        m as int,
                        ii,
                        jj,
                    ) == dot(self.data@, other.data@, m as int, k as int, ii, jj, k as int) by {
                        lemma_index_bound(ii, jj, m as int, j as int);
                        assert(cell(before, m as int, ii, jj) == cell(ans@, m as int, ii, jj));
                    }
                    assert forall|ii: int| 0 <= ii < i + 1 implies #[trigger] cell(
                        ans@,
                        m as int,
                        ii,
                        j as int,
                    ) == dot(self.data@, other.data@, m as int, k as int, ii, j as int, k as int) by {
                        if ii < i {
                            assert(cell(before, m as int, ii, j as int) == cell(
                                ans@,
                                m as int,
                                ii,
                                j as int,
                            ));
                        }
                    }
                }
                i += 1;
            }
            proof {
                assert(m * j + m == m * (j + 1)) by (nonlinear_arith);
            }
            j += 1;
        }
        let c = ComplexDoubleMatrix { size: [self.size[0], other.size[1]], data: ans };
        Ok(c)
    }

    /// The Kronecker product of `self` and `other`. Succeeds exactly when
    /// both are well formed and the row count and the column count of the
    /// product each fit in `u32`. Row `i1 * r2 + i2` and column `j1 * c2 + j2`
    /// of the result hold entry `(i1, j1)` of `self` times entry `(i2, j2)` of
    /// `other`, where `other` is `r2` by `c2`.
    fn kron(&self, other: &ComplexDoubleMatrix) -> (r: Result<ComplexDoubleMatrix, ExecError>)
        ensures
            match r {
                Ok(c) => self.wf() && other.wf() && self.rows() * other.rows() <= u32::MAX
                    && self.cols() * other.cols() <= u32::MAX && c.wf() && c.rows() == self.rows()
                    * other.rows() && c.cols() == self.cols() * other.cols() && forall|
                    i: int,
                    j: int,
                |
                    0 <= i < c.rows() && 0 <= j < c.cols() ==> #[trigger] c.entry(i, j)
                        == complex_product(
                        self.entry(i / other.rows(), j / other.cols()),
                        other.entry(i % other.rows(), j % other.cols()),
                    ),
                Err(e) => e == ExecError::DimensionMismatch && !(self.wf() && other.wf()
                    && self.rows() * other.rows() <= u32::MAX && self.cols() * other.cols()
                    <= u32::MAX),
            },
    {
        if !self.well_formed() || !other.well_formed() {
            return Err(ExecError::DimensionMismatch);
        }
        let r1: u64 = self.size[0] as u64;
        let c1: u64 = self.size[1] as u64;
        let r2: u64 = other.size[0] as u64;
        let c2: u64 = other.size[1] as u64;
        assert(r1 * r2 <= 0xFFFF_FFFF * 0xFFFF_FFFF && c1 * c2 <= 0xFFFF_FFFF * 0xFFFF_FFFF)
            by (nonlinear_arith)
            requires
                r1 <= 0xFFFF_FFFF,
                r2 <= 0xFFFF_FFFF,
                c1 <= 0xFFFF_FFFF,
                c2 <= 0xFFFF_FFFF,
        ;
        let rows: u64 = r1 * r2;
        let cols: u64 = c1 * c2;
        if rows > 0xFFFF_FFFF || cols > 0xFFFF_FFFF {
            return Err(ExecError::DimensionMismatch);
        }
        let alen: usize = self.data.len();
        let blen: usize = other.data.len();
        let mut ans: Vec<Complex64> = Vec::new();
        let mut j: u64 = 0;
        while j < cols
            invariant
                r1 == self.rows(),
                c1 == self.cols(),
                r2 == other.rows(),
                c2 == other.cols(),
                rows == r1 * r2,
                cols == c1 * c2,
                alen == self.data@.len(),
                blen == other.data@.len(),
                alen == r1 * c1,
                blen == r2 * c2,
                j <= cols,
                ans@.len() == rows * j,
                forall|ii: int, jj: int|
                    0 <= ii < rows && 0 <= jj < j ==> #[trigger] cell(ans@, rows as int, ii, jj)
                        == complex_product(
                        self.entry(ii / (r2 as int), jj / (c2 as int)),
                        other.entry(ii % (r2 as int), jj % (c2 as int)),
                    ),
            decreases cols - j,
        {
            let mut i: u64 = 0;
            while i < rows
                invariant
                    r1 == self.rows(),
                    c1 == self.cols(),
                    r2 == other.rows(),
                    c2 == other.cols(),
                    rows == r1 * r2,
                    cols == c1 * c2,
                    alen == self.data@.len(),
                    blen == other.data@.len(),
                    alen == r1 * c1,
                    blen == r2 * c2,
                    j < cols,
                    i <= rows,
                    ans@.len() == rows * j + i,
                    forall|ii: int, jj: int|
                        0 <= ii < rows && 0 <= jj < j ==> #[trigger] cell(
                            ans@,
                            rows as int,
                            ii,
                            jj,
                        ) == complex_product(
                            self.entry(ii / (r2 as int), jj / (c2 as int)),
                            other.entry(ii % (r2 as int), jj % (c2 as int)),
                        ),
                    forall|ii: int|
                        0 <= ii < i ==> #[trigger] cell(ans@, rows as int, ii, j as int)
                            == complex_product(
                            self.entry(ii / (r2 as int), j as int / (c2 as int)),
                            other.entry(ii % (r2 as int), j as int % (c2 as int)),
                        ),
                decreases rows - i,
            {
                proof {
                    assert(r2 > 0 && c2 > 0) by (nonlinear_arith)
                        requires
                            i < r1 * r2,
                            j < c1 * c2,
                            0 <= r1,
                            0 <= r2,
                            0 <= c1,
                            0 <= c2,
                    ;
                    lemma_split(i as int, r1 as int, r2 as int);
                    lemma_split(j as int, c1 as int, c2 as int);
                    lemma_index_bound(i as int / r2 as int, j as int / c2 as int, r1 as int, c1 as int);
                    lemma_index_bound(i as int % r2 as int, j as int % c2 as int, r2 as int, c2 as int);
                }
                let i1: u64 = i / r2;
                let i2: u64 = i % r2;
                let j1: u64 = j / c2;
                let j2: u64 = j % c2;
                let x: Complex64 = self.data[(i1 + r1 * j1) as usize];
                let y: Complex64 = other.data[(i2 + r2 * j2) as usize];
                let ghost before = ans@;
                ans.push(amp_mul(x, y));
                proof {
                    assert forall|ii: int, jj: int| 0 <= ii < rows && 0 <= jj < j implies #[trigger] cell(
                        ans@,
                        rows as int,
                        ii,
                        jj,
                    ) == complex_product(
                        self.entry(ii / (r2 as int), jj / (c2 as int)),
                        other.entry(ii % (r2 as int), jj % (c2 as int)),
                    ) by {
                        lemma_index_bound(ii, jj, rows as int, j as int);
                        assert(cell(before, rows as int, ii, jj) == cell(ans@, rows as int, ii, jj));
                    }
                    assert forall|ii: int| 0 <= ii < i + 1 implies #[trigger] cell(
                        ans@,
                        rows as int,
                        ii,
                        j as int,
                    ) == complex_product(
                        self.entry(ii / (r2 as int), j as int / (c2 as int)),
                        other.entry(ii % (r2 as int), j as int % (c2 as int)),
                    ) by {
                        if ii < i {
                            assert(cell(before, rows as int, ii, j as int) == cell(
                                ans@,
                                rows as int,
                                ii,
                                j as int,
                            ));
                        }
                    }
                }
                i += 1;
            }
            proof {
                assert(rows * j + rows == rows * (j + 1)) by (nonlinear_arith);
            }
            j += 1;
        }
        let c = ComplexDoubleMatrix { size: [rows as u32, cols as u32], data: ans };
        Ok(c)
    }
}

} // verus!
