//! Some linear algebra over elements of $\mathbb{F}_p$.
//!
//! This module mainly contains an implementation of matrices over the finite
//! field $\mathbb{F}_p$, whose elements are stored row by row.
use vstd::prelude::*;
use vstd::pervasive::unreached;
use crate::error::KomodoError;
use crate::field::{Scalar, all_wf, values, fadd, fsub, fmul, fneg, finv, fpow, modulus_p, decimal_digits, lemma_modulus_facts, rng_u128};
use crate::algebra::sums::{sum, lemma_inverse_unique};
use vstd::arithmetic::div_mod::{lemma_add_mod_noop, lemma_small_mod, lemma_mod_bound};
use crate::algebra::mat::{
    is_mat, mat_mul, identity, transpose, row_swap, row_scale, row_add, col_swap, col_scale, col_add,
    dot, is_kernel_witness, dependent_column, reduced_kernel_vector, singular, leading, zero_pivot_at,
    is_first_zero_pivot, lemma_dependent_leading, lemma_inverse_has_no_dependent_column, lemma_mul_is_mat, lemma_mul_row_swap,
    lemma_mul_row_scale, lemma_mul_row_add, lemma_pair_swap, lemma_pair_scale, lemma_pair_add,
    lemma_col_ops_is_mat, lemma_mul_identity_left, lemma_mul_identity_right, lemma_reduced_kernel,
    lemma_kernel_transfer, lemma_sub_is_add_neg, lemma_eliminate, is_echelon, is_pivot_sequence,
    has_rank, is_rank_witness, flatten_rows, lemma_flatten_rows,
};

verus! {

/// A matrix over $\mathbb{F}_p$.
///
/// Internally, a matrix is a vector of field elements whose length is the
/// width times the height, and where elements are organized row by row.
#[derive(Clone, Debug, PartialEq, Default)]
pub struct Matrix {
    /// $h \times w$ elements in $\mathbb{F}_p$.
    pub elements: Vec<Scalar>,
    /// the number of rows $h$.
    pub height: usize,
    /// the number of columns $w$.
    pub width: usize,
}

/// The rows of a sequence of vectors of scalars, cut to `w` columns.
pub open spec fn rows_view(rows: Seq<Vec<Scalar>>, w: nat) -> Seq<Seq<nat>> {
    Seq::new(rows.len(), |i: int| Seq::new(w, |j: int| rows[i]@[j]@))
}

/// The diagonal matrix whose diagonal is `d`.
pub open spec fn diagonal_spec(d: Seq<nat>) -> Seq<Seq<nat>> {
    Seq::new(d.len(), |i: int| Seq::new(d.len(), |j: int| if i == j { d[i] } else { 0nat }))
}

/// The transposed Vandermonde matrix of the points: row `i` holds the `i`-th
/// powers of the points.
pub open spec fn vandermonde_spec(points: Seq<nat>, h: nat) -> Seq<Seq<nat>> {
    Seq::new(h, |i: int| Seq::new(points.len(), |j: int| fpow(points[j], i as nat)))
}

proof fn lemma_mod_multiples_vanish_neg(x: int, p: int)
    requires
        0 < x < p,
    ensures
        (0 - x) % p == p - x,
{
    vstd::arithmetic::div_mod::lemma_fundamental_div_mod_converse(0 - x, p, -1, p - x);
}

pub proof fn lemma_index_bound(i: int, j: int, h: int, w: int)
    requires
        0 <= i < h,
        0 <= j < w,
    ensures
        0 <= i * w + j < h * w,
        0 <= i * w,
{
    assert(0 <= i * w + j < h * w) by (nonlinear_arith)
        requires
            0 <= i < h,
            0 <= j < w,
    {
        assert(i * w + j < i * w + w);
        assert(i * w + w == (i + 1) * w);
        assert((i + 1) * w <= h * w);
    }
    assert(0 <= i * w) by (nonlinear_arith)
        requires
            0 <= i,
            0 <= j < w,
    ;
}

pub proof fn lemma_index_distinct(i: int, j: int, i2: int, j2: int, w: int)
    requires
        0 <= i,
        0 <= i2,
        0 <= j < w,
        0 <= j2 < w,
        i != i2 || j != j2,
    ensures
        i * w + j != i2 * w + j2,
{
    if i == i2 {
    } else if i < i2 {
        assert(i * w + j < i2 * w + j2) by (nonlinear_arith)
            requires
                0 <= i < i2,
                0 <= j < w,
                0 <= j2 < w,
        {
            assert(i * w + j < (i + 1) * w);
            assert((i + 1) * w <= i2 * w);
        }
    } else {
        assert(i2 * w + j2 < i * w + j) by (nonlinear_arith)
            requires
                0 <= i2 < i,
                0 <= j < w,
                0 <= j2 < w,
        {
            assert(i2 * w + j2 < (i2 + 1) * w);
            assert((i2 + 1) * w <= i * w);
        }
    }
}

impl View for Matrix {
    type V = Seq<Seq<nat>>;

    /// The rows of the matrix.
    open spec fn view(&self) -> Seq<Seq<nat>> {
        Seq::new(
            self.height as nat,
            |i: int| Seq::new(self.width as nat, |j: int| self.elements@[i * self.width + j]@),
        )
    }
}

impl Matrix {
    /// The elements fill the matrix exactly and are canonical.
    pub open spec fn wf(&self) -> bool {
        &&& self.elements@.len() == self.height * self.width
        &&& all_wf(self.elements@)
    }

    /// The elements are the rows of the matrix, one after the other.
    pub proof fn lemma_elements_are_rows(&self)
        requires
            self.wf(),
        ensures
            values(self.elements@) == flatten_rows(self@),
    {
        let h = self.height as int;
        let w = self.width as int;
        assert forall|i: int| 0 <= i < h implies #[trigger] self@[i].len() == w by {}
        lemma_flatten_rows(self@, w as nat);
        assert forall|t: int| 0 <= t < self.elements@.len() implies #[trigger] values(self.elements@)[t] == flatten_rows(self@)[t] by {
            let i = t / w;
            let j = t % w;
            vstd::arithmetic::div_mod::lemma_fundamental_div_mod(t, w);
            vstd::arithmetic::div_mod::lemma_mod_bound(t, w);
            assert(0 <= i < h) by (nonlinear_arith)
                requires
                    t == w * i + j,
                    0 <= j < w,
                    0 <= t < h * w,
            {
                if i >= h {
                    assert(w * i >= w * h);
                }
                if i < 0 {
                    assert(w * i <= -w);
                }
            }
            assert(t == i * w + j) by (nonlinear_arith)
                requires
                    t == w * i + j,
            ;
            assert(self@[i][j] == self.elements@[i * w + j]@);
        }
        assert(values(self.elements@) =~= flatten_rows(self@));
    }

    pub proof fn lemma_wf_is_mat(&self)
        requires
            self.wf(),
        ensures
            is_mat(self@, self.height as nat, self.width as nat),
    {
        assert forall|i: int, j: int| 0 <= i < self.height && 0 <= j < self.width implies #[trigger] self@[i][j] < modulus_p() by {
            lemma_index_bound(i, j, self.height as int, self.width as int);
            assert(self.elements@[i * self.width + j].wf());
        }
    }

    /// Builds a matrix from rows, each cut to `width` elements.
    fn from_rows(rows: &Vec<Vec<Scalar>>, width: usize) -> (r: Matrix)
        requires
            rows@.len() * width <= usize::MAX,
            forall|i: int| 0 <= i < rows@.len() ==> #[trigger] rows@[i]@.len() >= width,
            forall|i: int| 0 <= i < rows@.len() ==> all_wf(#[trigger] rows@[i]@),
        ensures
            r.wf(),
            r.height == rows@.len(),
            r.width == width,
            r@ == rows_view(rows@, width as nat),
    {
        let height = rows.len();
        let mut elements: Vec<Scalar> = Vec::new();
        let mut i: usize = 0;
        while i < height
            invariant
                height == rows@.len(),
                height * width <= usize::MAX,
                i <= height,
                elements@.len() == i * width,
                forall|i: int| 0 <= i < rows@.len() ==> #[trigger] rows@[i]@.len() >= width,
                forall|i: int| 0 <= i < rows@.len() ==> all_wf(#[trigger] rows@[i]@),
                all_wf(elements@),
                forall|a: int, b: int| 0 <= a < i && 0 <= b < width ==> #[trigger] elements@[a * width + b] == rows@[a]@[b],
            decreases height - i,
        {
            let mut j: usize = 0;
            while j < width
                invariant
                    height == rows@.len(),
                    height * width <= usize::MAX,
                    i < height,
                    j <= width,
                    elements@.len() == i * width + j,
                    forall|i: int| 0 <= i < rows@.len() ==> #[trigger] rows@[i]@.len() >= width,
                    forall|i: int| 0 <= i < rows@.len() ==> all_wf(#[trigger] rows@[i]@),
                    all_wf(elements@),
                    forall|a: int, b: int| 0 <= a < i && 0 <= b < width ==> #[trigger] elements@[a * width + b] == rows@[a]@[b],
                    forall|b: int| 0 <= b < j ==> #[trigger] elements@[i * width + b] == rows@[i as int]@[b],
                decreases width - j,
            {
                proof { lemma_index_bound(i as int, j as int, height as int, width as int); }
                let x = rows[i][j];
                elements.push(x);
                proof {
                    assert forall|a: int, b: int| 0 <= a < i && 0 <= b < width implies #[trigger] elements@[a * width + b] == rows@[a]@[b] by {
                        lemma_index_bound(a, b, i as int, width as int);
                    }
                }
                j = j + 1;
            }
            proof {
                assert(i * width + width == (i + 1) * width) by (nonlinear_arith);
                assert forall|a: int, b: int| 0 <= a < i + 1 && 0 <= b < width implies #[trigger] elements@[a * width + b] == rows@[a]@[b] by {
                    if a == i {
                        assert(elements@[i * width + b] == rows@[i as int]@[b]);
                    }
                }
            }
            i = i + 1;
        }
        let r = Matrix { elements, height, width };
        proof {
            assert(r@ =~= rows_view(rows@, width as nat)) by {
                assert forall|a: int| 0 <= a < height implies #[trigger] r@[a] =~= rows_view(rows@, width as nat)[a] by {
                    assert forall|b: int| 0 <= b < width implies r@[a][b] == rows_view(rows@, width as nat)[a][b] by {
                        assert(elements@[a * width + b] == rows@[a]@[b]);
                    }
                }
            }
        }
        r
    }

    /// The element at row `i` and column `j`.
    pub fn get(&self, i: usize, j: usize) -> (r: Scalar)
        requires
            self.wf(),
            i < self.height,
            j < self.width,
        ensures
            r.wf(),
            r@ == self@[i as int][j as int],
    {
        proof {
            lemma_index_bound(i as int, j as int, self.height as int, self.width as int);
            assert(self.elements@[i * self.width + j].wf());
        }
        let n = self.elements.len();
        self.elements[i * self.width + j]
    }

    /// Sets the element at row `i` and column `j`.
    pub fn set(&mut self, i: usize, j: usize, value: Scalar)
        requires
            old(self).wf(),
            i < old(self).height,
            j < old(self).width,
            value.wf(),
        ensures
            final(self).wf(),
            final(self).height == old(self).height,
            final(self).width == old(self).width,
            final(self)@ == old(self)@.update(i as int, old(self)@[i as int].update(j as int, value@)),
    {
        proof {
            lemma_index_bound(i as int, j as int, self.height as int, self.width as int);
        }
        let ghost before = *self;
        let n = self.elements.len();
        let idx = i * self.width + j;
        self.elements.set(idx, value);
        proof {
            let w = self.width as int;
            assert forall|a: int, b: int| 0 <= a < self.height && 0 <= b < self.width && (a != i || b != j)
                implies #[trigger] self.elements@[a * w + b] == before.elements@[a * w + b] by {
                lemma_index_distinct(a, b, i as int, j as int, w);
                lemma_index_bound(a, b, self.height as int, w);
            }
            assert(self@ =~= before@.update(i as int, before@[i as int].update(j as int, value@))) by {
                assert forall|a: int| 0 <= a < self.height implies #[trigger] self@[a] =~= before@.update(i as int, before@[i as int].update(j as int, value@))[a] by {
                    assert forall|b: int| 0 <= b < self.width implies self@[a][b] == before@.update(i as int, before@[i as int].update(j as int, value@))[a][b] by {
                        if a != i || b != j {
                            assert(self.elements@[a * w + b] == before.elements@[a * w + b]);
                        }
                    }
                }
            }
            assert forall|t: int| 0 <= t < self.elements@.len() implies #[trigger] self.elements@[t].wf() by {
                if t != idx {
                    assert(before.elements@[t].wf());
                }
            }
        }
    }

    /// The unchecked version of [`Self::from_vec_vec`]: rows longer than the
    /// first one are cut to its length.
    pub fn from_vec_vec_unchecked(matrix: Vec<Vec<Scalar>>) -> (r: Matrix)
        requires
            matrix@.len() > 0,
            matrix@.len() * matrix@[0]@.len() <= usize::MAX,
            forall|i: int| 0 <= i < matrix@.len() ==> #[trigger] matrix@[i]@.len() >= matrix@[0]@.len(),
            forall|i: int| 0 <= i < matrix@.len() ==> all_wf(#[trigger] matrix@[i]@),
        ensures
            r.wf(),
            r.height == matrix@.len(),
            r.width == matrix@[0]@.len(),
            r@ == rows_view(matrix@, matrix@[0]@.len()),
    {
        let width = matrix[0].len();
        Matrix::from_rows(&matrix, width)
    }

    /// Builds a matrix from a "_matrix_" of elements, given row by row.
    ///
    /// An error is returned when the rows do not all have the same length,
    /// naming the first row whose length differs from the first one's.
    pub fn from_vec_vec(matrix: Vec<Vec<Scalar>>) -> (r: Result<Matrix, KomodoError>)
        requires
            matrix@.len() > 0 ==> matrix@.len() * matrix@[0]@.len() <= usize::MAX,
            forall|i: int| 0 <= i < matrix@.len() ==> all_wf(#[trigger] matrix@[i]@),
        ensures
            match r {
                Ok(m) => {
                    &&& m.wf()
                    &&& m.height == matrix@.len()
                    &&& matrix@.len() == 0 ==> m.width == 0
                    &&& matrix@.len() > 0 ==> m.width == matrix@[0]@.len()
                    &&& forall|i: int| 0 <= i < matrix@.len() ==> #[trigger] matrix@[i]@.len() == m.width
                    &&& m@ == rows_view(matrix@, m.width as nat)
                },
                Err(KomodoError::InvalidMatrixElements { expected, found, row }) => {
                    &&& row < matrix@.len()
                    &&& expected == matrix@[0]@.len()
                    &&& found == matrix@[row as int]@.len()
                    &&& found != expected
                    &&& forall|i: int| 0 <= i < row ==> #[trigger] matrix@[i]@.len() == expected
                },
                Err(_) => false,
            },
    {
        if matrix.len() == 0 {
            let m = Matrix { elements: Vec::new(), height: 0, width: 0 };
            proof {
                assert(m@ =~= rows_view(matrix@, 0));
            }
            return Ok(m);
        }
        let width = matrix[0].len();
        let mut i: usize = 0;
        while i < matrix.len()
            invariant
                i <= matrix@.len(),
                width == matrix@[0]@.len(),
                forall|t: int| 0 <= t < i ==> #[trigger] matrix@[t]@.len() == width,
            decreases matrix@.len() - i,
        {
            if matrix[i].len() != width {
                return Err(KomodoError::InvalidMatrixElements { expected: width, found: matrix[i].len(), row: i });
            }
            i = i + 1;
        }
        Ok(Matrix::from_vec_vec_unchecked(matrix))
    }

    /// Builds a square matrix from its diagonal.
    pub fn from_diagonal(diagonal: Vec<Scalar>) -> (r: Matrix)
        requires
            diagonal@.len() * diagonal@.len() <= usize::MAX,
            all_wf(diagonal@),
        ensures
            r.wf(),
            r.height == diagonal@.len(),
            r.width == diagonal@.len(),
            r@ == diagonal_spec(values(diagonal@)),
    {
        let size = diagonal.len();
        let mut rows: Vec<Vec<Scalar>> = Vec::new();
        let mut i: usize = 0;
        while i < size
            invariant
                size == diagonal@.len(),
                all_wf(diagonal@),
                i <= size,
                rows@.len() == i,
                forall|a: int| 0 <= a < i ==> #[trigger] rows@[a]@.len() == size,
                forall|a: int| 0 <= a < i ==> all_wf(#[trigger] rows@[a]@),
                forall|a: int, b: int| 0 <= a < i && 0 <= b < size ==> #[trigger] rows@[a]@[b]@ == diagonal_spec(values(diagonal@))[a][b],
            decreases size - i,
        {
            let mut row: Vec<Scalar> = Vec::new();
            let mut j: usize = 0;
            while j < size
                invariant
                    size == diagonal@.len(),
                    all_wf(diagonal@),
                    i < size,
                    j <= size,
                    row@.len() == j,
                    all_wf(row@),
                    forall|b: int| 0 <= b < j ==> #[trigger] row@[b]@ == diagonal_spec(values(diagonal@))[i as int][b],
                decreases size - j,
            {
                if i == j {
                    row.push(diagonal[i]);
                } else {
                    row.push(Scalar::zero());
                }
                proof { lemma_modulus_facts(); }
                j = j + 1;
            }
            rows.push(row);
            i = i + 1;
        }
        let r = Matrix::from_rows(&rows, size);
        proof {
            assert forall|a: int| 0 <= a < size implies #[trigger] r@[a] =~= diagonal_spec(values(diagonal@))[a] by {
                assert forall|b: int| 0 <= b < size implies r@[a][b] == diagonal_spec(values(diagonal@))[a][b] by {
                    assert(rows@[a]@[b]@ == diagonal_spec(values(diagonal@))[a][b]);
                }
            }
            assert(r@ =~= diagonal_spec(values(diagonal@)));
        }
        r
    }

    /// The identity matrix of a given size.
    pub fn identity(size: usize) -> (r: Matrix)
        requires
            size * size <= usize::MAX,
        ensures
            r.wf(),
            r.height == size,
            r.width == size,
            r@ == identity(size as nat),
    {
        let mut ones: Vec<Scalar> = Vec::new();
        let mut i: usize = 0;
        while i < size
            invariant
                i <= size,
                ones@.len() == i,
                all_wf(ones@),
                forall|a: int| 0 <= a < i ==> #[trigger] ones@[a]@ == 1,
            decreases size - i,
        {
            proof { lemma_modulus_facts(); }
            ones.push(Scalar::one());
            i = i + 1;
        }
        let r = Matrix::from_diagonal(ones);
        proof {
            assert(r@ =~= identity(size as nat));
        }
        r
    }

    /// Extracts a single column, `None` when the index is out of bounds.
    pub fn get_col(&self, j: usize) -> (r: Option<Vec<Scalar>>)
        requires
            self.wf(),
        ensures
            r is None <==> j >= self.width,
            r matches Some(c) ==> all_wf(c@) && values(c@) == Seq::new(self.height as nat, |i: int| self@[i][j as int]),
    {
        if j >= self.width {
            return None;
        }
        let mut col: Vec<Scalar> = Vec::new();
        let mut i: usize = 0;
        while i < self.height
            invariant
                self.wf(),
                j < self.width,
                i <= self.height,
                col@.len() == i,
                all_wf(col@),
                forall|a: int| 0 <= a < i ==> #[trigger] col@[a]@ == self@[a][j as int],
            decreases self.height - i,
        {
            col.push(self.get(i, j));
            i = i + 1;
        }
        proof {
            assert(values(col@) =~= Seq::new(self.height as nat, |i: int| self@[i][j as int]));
        }
        Some(col)
    }

    /// Computes the transpose of the matrix.
    pub fn transpose(&self) -> (r: Matrix)
        requires
            self.wf(),
        ensures
            r.wf(),
            r.height == self.width,
            r.width == self.height,
            r@ == transpose(self@, self.height as nat, self.width as nat),
    {
        let mut rows: Vec<Vec<Scalar>> = Vec::new();
        let mut i: usize = 0;
        while i < self.width
            invariant
                self.wf(),
                i <= self.width,
                rows@.len() == i,
                forall|a: int| 0 <= a < i ==> #[trigger] rows@[a]@.len() == self.height,
                forall|a: int| 0 <= a < i ==> all_wf(#[trigger] rows@[a]@),
                forall|a: int, b: int| 0 <= a < i && 0 <= b < self.height ==> #[trigger] rows@[a]@[b]@ == self@[b][a],
            decreases self.width - i,
        {
            let mut row: Vec<Scalar> = Vec::new();
            let mut j: usize = 0;
            while j < self.height
                invariant
                    self.wf(),
                    i < self.width,
                    j <= self.height,
                    row@.len() == j,
                    all_wf(row@),
                    forall|b: int| 0 <= b < j ==> #[trigger] row@[b]@ == self@[b][i as int],
                decreases self.height - j,
            {
                row.push(self.get(j, i));
                j = j + 1;
            }
            rows.push(row);
            i = i + 1;
        }
        let n = self.elements.len();
        proof {
            assert(self.width * self.height == self.height * self.width) by (nonlinear_arith);
        }
        let r = Matrix::from_rows(&rows, self.height);
        proof {
            let t = transpose(self@, self.height as nat, self.width as nat);
            assert forall|a: int| 0 <= a < self.width implies #[trigger] r@[a] =~= t[a] by {
                assert forall|b: int| 0 <= b < self.height implies r@[a][b] == t[a][b] by {
                    assert(rows@[a]@[b]@ == self@[b][a]);
                }
            }
            assert(r@ =~= t);
        }
        r
    }

    /// Computes the product `self * rhs`.
    ///
    /// An error is returned when the shapes are not compatible, i.e. when the
    /// width of `self` is not the height of `rhs`.
    pub fn mul(&self, rhs: &Matrix) -> (r: Result<Matrix, KomodoError>)
        requires
            self.wf(),
            rhs.wf(),
            self.height * rhs.width <= usize::MAX,
        ensures
            match r {
                Ok(m) => {
                    &&& self.width == rhs.height
                    &&& m.wf()
                    &&& m.height == self.height
                    &&& m.width == rhs.width
                    &&& m@ == mat_mul(self@, rhs@, self.width as nat, rhs.width as nat)
                },
                Err(KomodoError::IncompatibleMatrixShapes { left, right }) => {
                    &&& self.width != rhs.height
                    &&& left == (self.height, self.width)
                    &&& right == (rhs.height, rhs.width)
                },
                Err(_) => false,
            },
    {
        if self.width != rhs.height {
            return Err(KomodoError::IncompatibleMatrixShapes {
                left: (self.height, self.width),
                right: (rhs.height, rhs.width),
            });
        }
        let height = self.height;
        let width = rhs.width;
        let common = self.width;
        let ghost prod = mat_mul(self@, rhs@, common as nat, width as nat);
        let mut rows: Vec<Vec<Scalar>> = Vec::new();
        let mut i: usize = 0;
        while i < height
            invariant
                self.wf(),
                rhs.wf(),
                height == self.height,
                width == rhs.width,
                common == self.width,
                common == rhs.height,
                prod == mat_mul(self@, rhs@, common as nat, width as nat),
                i <= height,
                rows@.len() == i,
                forall|a: int| 0 <= a < i ==> #[trigger] rows@[a]@.len() == width,
                forall|a: int| 0 <= a < i ==> all_wf(#[trigger] rows@[a]@),
                forall|a: int, b: int| 0 <= a < i && 0 <= b < width ==> #[trigger] rows@[a]@[b]@ == prod[a][b],
            decreases height - i,
        {
            let mut row: Vec<Scalar> = Vec::new();
            let mut j: usize = 0;
            while j < width
                invariant
                    self.wf(),
                    rhs.wf(),
                    height == self.height,
                    width == rhs.width,
                    common == self.width,
                    common == rhs.height,
                    prod == mat_mul(self@, rhs@, common as nat, width as nat),
                    i < height,
                    j <= width,
                    row@.len() == j,
                    all_wf(row@),
                    forall|b: int| 0 <= b < j ==> #[trigger] row@[b]@ == prod[i as int][b],
                decreases width - j,
            {
                let mut acc = Scalar::zero();
                let mut k: usize = 0;
                proof { lemma_modulus_facts(); }
                while k < common
                    invariant
                        self.wf(),
                        rhs.wf(),
                        common == self.width,
                        common == rhs.height,
                        i < self.height,
                        j < rhs.width,
                        k <= common,
                        acc.wf(),
                        acc@ == dot(self@[i as int], rhs@, j as int, k as nat) % (modulus_p() as int),
                    decreases common - k,
                {
                    let prod_k = self.get(i, k).mul(&rhs.get(k, j));
                    let ghost before = dot(self@[i as int], rhs@, j as int, k as nat);
                    acc = acc.add(&prod_k);
                    proof {
                        lemma_modulus_facts();
                        let term = (self@[i as int][k as int] * rhs@[k as int][j as int]) as int;
                        assert(dot(self@[i as int], rhs@, j as int, (k + 1) as nat) == before + term);
                        lemma_add_mod_noop(before, term, modulus_p() as int);
                        lemma_small_mod(prod_k@, modulus_p());
                    }
                    k = k + 1;
                }
                row.push(acc);
                j = j + 1;
            }
            rows.push(row);
            i = i + 1;
        }
        let m = Matrix::from_rows(&rows, width);
        proof {
            assert forall|a: int| 0 <= a < height implies #[trigger] m@[a] =~= prod[a] by {
                assert forall|b: int| 0 <= b < width implies m@[a][b] == prod[a][b] by {
                    assert(rows@[a]@[b]@ == prod[a][b]);
                }
            }
            assert(m@ =~= prod);
        }
        Ok(m)
    }

    /// A copy of the matrix.
    fn duplicate(&self) -> (r: Matrix)
        ensures
            r.elements@ == self.elements@,
            r.height == self.height,
            r.width == self.width,
            r@ == self@,
    {
        let mut elements: Vec<Scalar> = Vec::new();
        let mut t: usize = 0;
        while t < self.elements.len()
            invariant
                t <= self.elements@.len(),
                elements@ == self.elements@.subrange(0, t as int),
            decreases self.elements@.len() - t,
        {
            elements.push(self.elements[t]);
            proof {
                assert(elements@ =~= self.elements@.subrange(0, t + 1));
            }
            t = t + 1;
        }
        proof {
            assert(elements@ =~= self.elements@);
        }
        let r = Matrix { elements, height: self.height, width: self.width };
        proof {
            assert(r@ =~= self@);
        }
        r
    }

    /// Computes the inverse of the matrix.
    ///
    /// If $M$ is an invertible square matrix, then this computes $M^{-1}$
    /// such that $MM^{-1} = M^{-1}M = I_n$. Otherwise an error says that the
    /// matrix is not square, or, for a square matrix with no inverse, gives
    /// the first row at which Gauss-Jordan elimination without row exchanges
    /// finds a zero pivot.
    pub fn invert(&self) -> (r: Result<Matrix, KomodoError>)
        requires
            self.wf(),
        ensures
            match r {
                Ok(inv) => {
                    &&& self.height == self.width
                    &&& inv.wf()
                    &&& inv.height == self.height
                    &&& inv.width == self.height
                    &&& mat_mul(inv@, self@, self.height as nat, self.height as nat) == identity(self.height as nat)
                    &&& mat_mul(self@, inv@, self.height as nat, self.height as nat) == identity(self.height as nat)
                },
                Err(KomodoError::NonSquareMatrix(a, b)) => {
                    a == self.height && b == self.width && a != b
                },
                Err(KomodoError::NonInvertibleMatrix(i)) => {
                    &&& self.height == self.width
                    &&& singular(self@, self.height as nat)
                    &&& is_first_zero_pivot(self@, self.height as nat, i as nat)
                },
                Err(_) => false,
            },
    {
        if self.height != self.width {
            return Err(KomodoError::NonSquareMatrix(self.height, self.width));
        }
        match self.invert_with_pivots() {
            Ok(inv) => Ok(inv),
            Err(e) => {
                proof {
                    if let KomodoError::NonInvertibleMatrix(c) = e {
                        assert(dependent_column(self@, self.height as nat, c as nat));
                    }
                }
                Err(KomodoError::NonInvertibleMatrix(self.first_zero_pivot()))
            },
        }
    }

    /// The leading principal submatrix of size `s`.
    fn leading_submatrix(&self, s: usize) -> (r: Matrix)
        requires
            self.wf(),
            s <= self.height,
            s <= self.width,
        ensures
            r.wf(),
            r.height == s,
            r.width == s,
            r@ == leading(self@, s as nat),
    {
        let mut rows: Vec<Vec<Scalar>> = Vec::new();
        let mut i: usize = 0;
        while i < s
            invariant
                self.wf(),
                s <= self.height,
                s <= self.width,
                i <= s,
                rows@.len() == i,
                forall|a: int| 0 <= a < i ==> #[trigger] rows@[a]@.len() == s,
                forall|a: int| 0 <= a < i ==> all_wf(#[trigger] rows@[a]@),
                forall|a: int, b: int| 0 <= a < i && 0 <= b < s ==> #[trigger] rows@[a]@[b]@ == self@[a][b],
            decreases s - i,
        {
            let mut row: Vec<Scalar> = Vec::new();
            let mut j: usize = 0;
            while j < s
                invariant
                    self.wf(),
                    s <= self.height,
                    s <= self.width,
                    i < s,
                    j <= s,
                    row@.len() == j,
                    all_wf(row@),
                    forall|b: int| 0 <= b < j ==> #[trigger] row@[b]@ == self@[i as int][b],
                decreases s - j,
            {
                row.push(self.get(i, j));
                j = j + 1;
            }
            rows.push(row);
            i = i + 1;
        }
        let nb_elements = self.elements.len();
        proof {
            assert(s * s <= self.height * self.width) by (nonlinear_arith)
                requires
                    s <= self.height,
                    s <= self.width,
            ;
        }
        let r = Matrix::from_rows(&rows, s);
        proof {
            let l = leading(self@, s as nat);
            assert forall|a: int| 0 <= a < s implies #[trigger] r@[a] =~= l[a] by {
                assert forall|b: int| 0 <= b < s implies r@[a][b] == l[a][b] by {
                    assert(rows@[a]@[b]@ == self@[a][b]);
                }
            }
            assert(r@ =~= l);
        }
        r
    }

    /// The first row at which Gauss-Jordan elimination without row exchanges
    /// finds a zero pivot, for a square matrix with no inverse: the size of
    /// the first leading principal submatrix with no inverse, less one.
    fn first_zero_pivot(&self) -> (r: usize)
        requires
            self.wf(),
            self.height == self.width,
            singular(self@, self.height as nat),
        ensures
            is_first_zero_pivot(self@, self.height as nat, r as nat),
    {
        let n = self.height;
        proof {
            self.lemma_wf_is_mat();
            let c = choose|c: nat| dependent_column(self@, n as nat, c);
            assert(leading(self@, n as nat) =~= self@) by {
                assert forall|a: int| 0 <= a < n implies #[trigger] leading(self@, n as nat)[a] =~= self@[a] by {}
            }
            lemma_dependent_leading(self@, n as nat, c);
        }
        let ghost c = choose|c: nat| zero_pivot_at(self@, c) && c < n;
        let mut j: usize = 0;
        while j < n
            invariant
                self.wf(),
                n == self.height,
                n == self.width,
                is_mat(self@, n as nat, n as nat),
                zero_pivot_at(self@, c),
                c < n,
                j <= n,
                forall|t: nat| t < j ==> !zero_pivot_at(self@, t),
            decreases n - j,
        {
            let lead = self.leading_submatrix(j + 1);
            match lead.invert_with_pivots() {
                Ok(inv) => {
                    proof {
                        lead.lemma_wf_is_mat();
                        inv.lemma_wf_is_mat();
                        lemma_inverse_has_no_dependent_column(lead@, inv@, (j + 1) as nat, j as nat);
                        assert forall|t: nat| t < j + 1 implies !zero_pivot_at(self@, t) by {
                            if t == j {
                                assert(lead@ == leading(self@, t + 1));
                            }
                        }
                    }
                    j = j + 1;
                },
                Err(e) => {
                    proof {
                        if let KomodoError::NonInvertibleMatrix(d) = e {
                            lemma_dependent_leading(self@, (j + 1) as nat, d as nat);
                            assert(d == j);
                        }
                    }
                    return j;
                },
            }
        }
        proof {
            assert(c < j);
        }
        unreached()
    }

    /// Computes the inverse of the matrix by Gauss-Jordan elimination, with a
    /// search for a nonzero pivot in each column; otherwise an error says
    /// that the matrix is not square, or names a column that is a combination
    /// of the columns before it.
    #[verifier::loop_isolation(false)]
    #[verifier::rlimit(100)]
    #[verifier::spinoff_prover]
    fn invert_with_pivots(&self) -> (r: Result<Matrix, KomodoError>)
        requires
            self.wf(),
        ensures
            match r {
                Ok(inv) => {
                    &&& self.height == self.width
                    &&& inv.wf()
                    &&& inv.height == self.height
                    &&& inv.width == self.height
                    &&& mat_mul(inv@, self@, self.height as nat, self.height as nat) == identity(self.height as nat)
                    &&& mat_mul(self@, inv@, self.height as nat, self.height as nat) == identity(self.height as nat)
                },
                Err(KomodoError::NonSquareMatrix(a, b)) => {
                    a == self.height && b == self.width && a != b
                },
                Err(KomodoError::NonInvertibleMatrix(i)) => {
                    &&& self.height == self.width
                    &&& dependent_column(self@, self.height as nat, i as nat)
                },
                Err(_) => false,
            },
    {
        if self.height != self.width {
            return Err(KomodoError::NonSquareMatrix(self.height, self.width));
        }
        let n = self.height;
        let len = self.elements.len();
        let ghost nn = n as nat;
        let ghost m = self@;
        let mut inverse = Matrix::identity(n);
        let mut matrix = self.duplicate();
        let ghost mut u = identity(nn);
        proof {
            lemma_modulus_facts();
            self.lemma_wf_is_mat();
            inverse.lemma_wf_is_mat();
            lemma_mul_identity_left(m, nn, nn);
            lemma_mul_identity_right(identity(nn), nn, nn);
        }
        let mut i: usize = 0;
        while i < n
            invariant
                i <= n,
                inverse.wf(),
                matrix.wf(),
                inverse.height == n,
                inverse.width == n,
                matrix.height == n,
                matrix.width == n,
                is_mat(u, nn, nn),
                mat_mul(inverse@, m, nn, nn) == matrix@,
                mat_mul(u, matrix@, nn, nn) == m,
                mat_mul(u, inverse@, nn, nn) == identity(nn),
                forall|r: int, c: int| 0 <= r < n && 0 <= c < i ==> #[trigger] matrix@[r][c] == (if r == c { 1nat } else { 0nat }),
            decreases n - i,
        {
            let mut piv: usize = i;
            while piv < n && matrix.get(piv, i).is_zero()
                invariant
                    i <= piv <= n,
                    forall|t: int| i <= t < piv ==> #[trigger] matrix@[t][i as int] == 0,
                decreases n - piv,
            {
                piv = piv + 1;
            }
            if piv == n {
                proof {
                    matrix.lemma_wf_is_mat();
                    lemma_reduced_kernel(matrix@, nn, i as nat);
                    lemma_kernel_transfer(u, matrix@, nn, reduced_kernel_vector(matrix@, nn, i as nat), i as nat);
                    assert(is_kernel_witness(self@, nn, reduced_kernel_vector(matrix@, nn, i as nat), i as nat));
                    assert(dependent_column(self@, self.height as nat, i as nat));
                }
                return Err(KomodoError::NonInvertibleMatrix(i));
            }
            if piv != i {
                proof {
                    matrix.lemma_wf_is_mat();
                    inverse.lemma_wf_is_mat();
                    lemma_mul_row_swap(inverse@, m, nn, nn, nn, i as int, piv as int);
                    lemma_pair_swap(u, matrix@, nn, nn, nn, i as int, piv as int);
                    lemma_pair_swap(u, inverse@, nn, nn, nn, i as int, piv as int);
                    lemma_col_ops_is_mat(u, nn, nn, i as int, piv as int, 0);
                }
                let ghost before = matrix@;
                matrix.swap_rows(i, piv);
                inverse.swap_rows(i, piv);
                proof {
                    u = col_swap(u, i as int, piv as int);
                    assert forall|r: int, c: int| 0 <= r < n && 0 <= c < i implies #[trigger] matrix@[r][c] == (if r == c { 1nat } else { 0nat }) by {
                        if r == i {
                            assert(matrix@[r][c] == before[piv as int][c]);
                        } else if r == piv {
                            assert(matrix@[r][c] == before[i as int][c]);
                        }
                    }
                }
            }
            let pivot = matrix.get(i, i);
            proof {
                matrix.lemma_wf_is_mat();
                inverse.lemma_wf_is_mat();
            }
            let ghost before = matrix@;
            let ghost inv_before = inverse@;
            inverse.divide_row_by(i, pivot);
            matrix.divide_row_by(i, pivot);
            proof {
                let d = finv(pivot@);
                lemma_mul_row_scale(inv_before, m, nn, nn, nn, i as int, d);
                lemma_pair_scale(u, before, nn, nn, nn, i as int, pivot@, d);
                lemma_pair_scale(u, inv_before, nn, nn, nn, i as int, pivot@, d);
                lemma_col_ops_is_mat(u, nn, nn, i as int, i as int, pivot@);
                u = col_scale(u, i as int, pivot@);
                assert forall|r: int, c: int| 0 <= r < n && 0 <= c < i implies #[trigger] matrix@[r][c] == (if r == c { 1nat } else { 0nat }) by {
                    if r == i {
                        assert(before[r][c] == 0);
                        assert(matrix@[r][c] == fmul(0, d));
                    }
                }
                assert(matrix@[i as int][i as int] == 1);
            }
            let mut k: usize = 0;
            while k < n
                invariant
                    i < n,
                    k <= n,
                    inverse.wf(),
                    matrix.wf(),
                    inverse.height == n,
                    inverse.width == n,
                    matrix.height == n,
                    matrix.width == n,
                    is_mat(u, nn, nn),
                    mat_mul(inverse@, m, nn, nn) == matrix@,
                    mat_mul(u, matrix@, nn, nn) == m,
                    mat_mul(u, inverse@, nn, nn) == identity(nn),
                    matrix@[i as int][i as int] == 1,
                    forall|r: int, c: int| 0 <= r < n && 0 <= c < i ==> #[trigger] matrix@[r][c] == (if r == c { 1nat } else { 0nat }),
                    forall|t: int| 0 <= t < k && t != i ==> #[trigger] matrix@[t][i as int] == 0,
                decreases n - k,
            {
                if k != i {
                    let factor = matrix.get(k, i);
                    let neg = factor.neg();
                    proof {
                        matrix.lemma_wf_is_mat();
                        inverse.lemma_wf_is_mat();
                    }
                    let ghost before = matrix@;
                    let ghost inv_before = inverse@;
                    inverse.multiply_row_by_and_add_to_row(i, neg, k);
                    matrix.multiply_row_by_and_add_to_row(i, neg, k);
                    proof {
                        lemma_mul_row_add(inv_before, m, nn, nn, nn, i as int, neg@, k as int);
                        lemma_pair_add(u, before, nn, nn, nn, i as int, neg@, k as int);
                        lemma_pair_add(u, inv_before, nn, nn, nn, i as int, neg@, k as int);
                        lemma_col_ops_is_mat(u, nn, nn, i as int, k as int, fneg(neg@));
                        u = col_add(u, k as int, fneg(neg@), i as int);
                        assert forall|r: int, c: int| 0 <= r < n && 0 <= c < i implies #[trigger] matrix@[r][c] == (if r == c { 1nat } else { 0nat }) by {
                            if r == k {
                                assert(before[i as int][c] == 0);
                                assert(fmul(0, neg@) == 0);
                                assert(matrix@[r][c] == fadd(before[r][c], 0));
                            }
                        }
                        // the pivot column is cleared in row k
                        let x = factor@;
                        assert(fmul(1, neg@) == neg@);
                        assert(neg@ == fneg(x));
                        if x == 0 {
                            assert(fneg(x) == 0);
                        } else {
                            assert(fneg(x) == modulus_p() - x) by {
                                lemma_mod_multiples_vanish_neg(x as int, modulus_p() as int);
                            }
                        }
                        assert(matrix@[k as int][i as int] == fadd(x, neg@));
                    }
                }
                k = k + 1;
            }
            i = i + 1;
        }
        proof {
            assert(matrix@ =~= identity(nn)) by {
                assert forall|r: int| 0 <= r < n implies #[trigger] matrix@[r] =~= identity(nn)[r] by {}
            }
            lemma_mul_identity_right(u, nn, nn);
            assert(u == m);
        }
        Ok(inverse)
    }

    /// Computes `destination = destination - ratio * source` on the columns
    /// from `from_col` on, where both rows vanish before `from_col`.
    fn subtract_scaled_row_from(&mut self, source: usize, ratio: Scalar, destination: usize, from_col: usize)
        requires
            old(self).wf(),
            source < old(self).height,
            destination < old(self).height,
            source != destination,
            from_col <= old(self).width,
            ratio.wf(),
            forall|l: int| 0 <= l < from_col ==> #[trigger] old(self)@[source as int][l] == 0,
            forall|l: int| 0 <= l < from_col ==> #[trigger] old(self)@[destination as int][l] == 0,
        ensures
            final(self).wf(),
            final(self).height == old(self).height,
            final(self).width == old(self).width,
            final(self)@ == row_add(old(self)@, source as int, fneg(ratio@), destination as int),
    {
        proof { self.lemma_wf_is_mat(); }
        let ghost before = self@;
        let ghost w = self.width as nat;
        let mut l: usize = from_col;
        proof {
            let init = Seq::new(w, |t: int| if from_col <= t < from_col { fsub(before[destination as int][t], fmul(ratio@, before[source as int][t])) } else { before[destination as int][t] });
            assert(init =~= before[destination as int]);
            assert(before =~= before.update(destination as int, init));
        }
        while l < self.width
            invariant
                self.wf(),
                source < self.height,
                destination < self.height,
                source != destination,
                w == self.width,
                before.len() == self.height,
                before[destination as int].len() == w,
                before[source as int].len() == w,
                is_mat(before, self.height as nat, w),
                ratio.wf(),
                from_col <= l <= self.width,
                self@ == before.update(destination as int, Seq::new(w, |t: int| if from_col <= t < l { fsub(before[destination as int][t], fmul(ratio@, before[source as int][t])) } else { before[destination as int][t] })),
            decreases self.width - l,
        {
            let x = self.get(destination, l).sub(&ratio.mul(&self.get(source, l)));
            self.set(destination, l, x);
            proof {
                let nr = Seq::new(w, |t: int| if from_col <= t < l + 1 { fsub(before[destination as int][t], fmul(ratio@, before[source as int][t])) } else { before[destination as int][t] });
                assert(self@[destination as int] =~= nr);
                assert(self@ =~= before.update(destination as int, nr));
            }
            l = l + 1;
        }
        proof {
            lemma_modulus_facts();
            let target = row_add(before, source as int, fneg(ratio@), destination as int);
            assert forall|t: int| 0 <= t < w implies #[trigger] self@[destination as int][t] == target[destination as int][t] by {
                if t < from_col {
                    assert(before[source as int][t] == 0);
                    assert(before[destination as int][t] == 0);
                    assert(fmul(0, fneg(ratio@)) == 0);
                } else {
                    lemma_sub_is_add_neg(before[destination as int][t], ratio@, before[source as int][t]);
                }
            }
            assert(self@[destination as int] =~= target[destination as int]);
            assert(self@ =~= target);
        }
    }

    /// Tells whether a row holds a nonzero element.
    fn row_is_nonzero(&self, row: usize) -> (b: bool)
        requires
            self.wf(),
            row < self.height,
        ensures
            b == exists|c: int| 0 <= c < self.width && #[trigger] self@[row as int][c] != 0,
    {
        let mut c: usize = 0;
        while c < self.width
            invariant
                self.wf(),
                row < self.height,
                c <= self.width,
                forall|t: int| 0 <= t < c ==> #[trigger] self@[row as int][t] == 0,
            decreases self.width - c,
        {
            if !self.get(row, c).is_zero() {
                return true;
            }
            c = c + 1;
        }
        false
    }

    /// Computes the rank of the matrix, by Gaussian elimination with row
    /// exchanges: the number of nonzero rows of the echelon form.
    ///
    /// The rank is never bigger than the height nor the width; a square and
    /// invertible matrix has full rank.
    #[verifier::loop_isolation(false)]
    #[verifier::rlimit(100)]
    #[verifier::spinoff_prover]
    pub fn rank(&self) -> (r: usize)
        requires
            self.wf(),
        ensures
            r <= self.height,
            r <= self.width,
            has_rank(self@, self.height as nat, self.width as nat, r as nat),
    {
        let h = self.height;
        let w = self.width;
        let ghost hh = h as nat;
        let ghost ww = w as nat;
        let ghost m = self@;
        let mut mat = self.duplicate();
        let ghost mut t = identity(hh);
        let ghost mut u = identity(hh);
        let ghost mut pc: Seq<nat> = Seq::empty();
        proof {
            lemma_modulus_facts();
            self.lemma_wf_is_mat();
            lemma_mul_identity_left(m, hh, ww);
            lemma_mul_identity_right(identity(hh), hh, hh);
        }
        let mut i: usize = 0;
        let mut j: usize = 0;
        while j < w
            invariant
                mat.wf(),
                mat.height == h,
                mat.width == w,
                is_mat(t, hh, hh),
                is_mat(u, hh, hh),
                mat_mul(t, m, hh, ww) == mat@,
                mat_mul(u, t, hh, hh) == identity(hh),
                i <= j <= w,
                i <= h,
                is_pivot_sequence(mat@, ww, i as nat, pc),
                forall|a: int| 0 <= a < i ==> #[trigger] pc[a] < j,
                forall|a: int, c: int| i <= a < h && 0 <= c < j ==> #[trigger] mat@[a][c] == 0,
            decreases w - j,
        {
            let mut k: usize = i;
            while k < h && mat.get(k, j).is_zero()
                invariant
                    i <= k <= h,
                    forall|a: int| i <= a < k ==> #[trigger] mat@[a][j as int] == 0,
                decreases h - k,
            {
                k = k + 1;
            }
            if k < h {
                // move the nonzero element to the diagonal
                let ghost before = mat@;
                proof {
                    mat.lemma_wf_is_mat();
                    lemma_mul_row_swap(t, m, hh, hh, ww, i as int, k as int);
                    lemma_pair_swap(u, t, hh, hh, hh, i as int, k as int);
                    lemma_col_ops_is_mat(u, hh, hh, i as int, k as int, 0);
                }
                mat.swap_rows(i, k);
                proof {
                    t = row_swap(t, i as int, k as int);
                    u = col_swap(u, i as int, k as int);
                    assert(is_mat(t, hh, hh)) by {
                        assert forall|a: int| 0 <= a < hh implies #[trigger] t[a].len() == hh by {}
                    }
                    assert forall|a: int, c: int| i <= a < h && 0 <= c < j implies #[trigger] mat@[a][c] == 0 by {
                        if a == i {
                            assert(mat@[a][c] == before[k as int][c]);
                        } else if a == k {
                            assert(mat@[a][c] == before[i as int][c]);
                        }
                    }
                    assert(is_pivot_sequence(mat@, ww, i as nat, pc)) by {
                        assert forall|a: int, c: int| 0 <= a < i && 0 <= c < pc[a] implies #[trigger] mat@[a][c] == 0 by {
                            assert(mat@[a] == before[a]);
                        }
                        assert forall|a: int| 0 <= a < i implies #[trigger] pc[a] < ww && mat@[a][pc[a] as int] != 0 by {
                            assert(mat@[a] == before[a]);
                        }
                    }
                }
                let pivot = mat.get(i, j);
                let pivot_inv = pivot.inverse().unwrap();
                // update the bottom part of the matrix
                let mut k2: usize = i + 1;
                while k2 < h
                    invariant
                        mat.wf(),
                        mat.height == h,
                        mat.width == w,
                        is_mat(t, hh, hh),
                        is_mat(u, hh, hh),
                        mat_mul(t, m, hh, ww) == mat@,
                        mat_mul(u, t, hh, hh) == identity(hh),
                        i < h,
                        j < w,
                        i + 1 <= k2 <= h,
                        pivot.wf(),
                        pivot@ == mat@[i as int][j as int],
                        pivot@ != 0,
                        fmul(pivot@, pivot_inv@) == 1,
                        pivot_inv.wf(),
                        is_pivot_sequence(mat@, ww, i as nat, pc),
                        forall|a: int| 0 <= a < i ==> #[trigger] pc[a] < j,
                        forall|c: int| 0 <= c < j ==> #[trigger] mat@[i as int][c] == 0,
                        forall|a: int, c: int| i <= a < h && 0 <= c < j ==> #[trigger] mat@[a][c] == 0,
                        forall|a: int| i < a < k2 ==> #[trigger] mat@[a][j as int] == 0,
                    decreases h - k2,
                {
                    let ratio = mat.get(k2, j).mul(&pivot_inv);
                    let ghost before = mat@;
                    let ghost tb = t;
                    proof {
                        mat.lemma_wf_is_mat();
                        lemma_mul_row_add(t, m, hh, hh, ww, i as int, fneg(ratio@), k2 as int);
                        lemma_pair_add(u, t, hh, hh, hh, i as int, fneg(ratio@), k2 as int);
                        lemma_col_ops_is_mat(u, hh, hh, i as int, k2 as int, fneg(fneg(ratio@)));
                    }
                    mat.subtract_scaled_row_from(i, ratio, k2, j);
                    proof {
                        t = row_add(t, i as int, fneg(ratio@), k2 as int);
                        u = col_add(u, k2 as int, fneg(fneg(ratio@)), i as int);
                        assert(is_mat(t, hh, hh)) by {
                            assert forall|a: int| 0 <= a < hh implies #[trigger] t[a].len() == hh by {}
                            assert forall|a: int, c: int| 0 <= a < hh && 0 <= c < hh implies #[trigger] t[a][c] < modulus_p() by {
                                if a == k2 {
                                    assert(t[a][c] == fadd(tb[a][c], fmul(tb[i as int][c], fneg(ratio@))));
                                }
                            }
                        }
                        lemma_eliminate(before[k2 as int][j as int], pivot@, pivot_inv@);
                        assert(mat@[k2 as int][j as int] == 0);
                        assert forall|a: int, c: int| i <= a < h && 0 <= c < j implies #[trigger] mat@[a][c] == 0 by {
                            if a == k2 {
                                assert(before[i as int][c] == 0);
                                assert(fmul(0, fneg(ratio@)) == 0);
                                assert(mat@[a][c] == fadd(before[a][c], 0));
                            }
                        }
                        assert(is_pivot_sequence(mat@, ww, i as nat, pc)) by {
                            assert forall|a: int, c: int| 0 <= a < i && 0 <= c < pc[a] implies #[trigger] mat@[a][c] == 0 by {
                                assert(mat@[a] == before[a]);
                            }
                            assert forall|a: int| 0 <= a < i implies #[trigger] pc[a] < ww && mat@[a][pc[a] as int] != 0 by {
                                assert(mat@[a] == before[a]);
                            }
                        }
                    }
                    k2 = k2 + 1;
                }
                proof {
                    let pc2 = pc.push(j as nat);
                    assert(is_pivot_sequence(mat@, ww, (i + 1) as nat, pc2)) by {
                        assert forall|a: int, b: int| 0 <= a < b < i + 1 implies #[trigger] pc2[a] < #[trigger] pc2[b] by {
                            if b == i {
                                assert(pc[a] < j);
                            }
                        }
                        assert forall|a: int| 0 <= a < i + 1 implies #[trigger] pc2[a] < ww && mat@[a][pc2[a] as int] != 0 by {}
                        assert forall|a: int, c: int| 0 <= a < i + 1 && 0 <= c < pc2[a] implies #[trigger] mat@[a][c] == 0 by {}
                    }
                    pc = pc2;
                }
                i = i + 1;
            }
            j = j + 1;
        }
        proof {
            assert(is_echelon(mat@, hh, ww, i as nat));
            assert(is_rank_witness(m, hh, ww, i as nat, t, u));
        }
        // count the nonzero rows
        let mut count: usize = 0;
        let mut row: usize = 0;
        while row < h
            invariant
                mat.wf(),
                mat.height == h,
                mat.width == w,
                row <= h,
                i <= h,
                count == if row < i { row } else { i },
                is_pivot_sequence(mat@, ww, i as nat, pc),
                forall|a: int, c: int| i <= a < h && 0 <= c < w ==> #[trigger] mat@[a][c] == 0,
            decreases h - row,
        {
            let nz = mat.row_is_nonzero(row);
            proof {
                if row < i {
                    assert(mat@[row as int][pc[row as int] as int] != 0);
                }
            }
            if nz {
                count = count + 1;
            }
            row = row + 1;
        }
        count
    }

    /// Builds the transposed Vandermonde matrix of some seed points, without
    /// checking that the points are distinct: there are as many columns as
    /// points and row `i` holds the `i`-th powers of the points.
    pub fn vandermonde_unchecked(points: &[Scalar], height: usize) -> (r: Matrix)
        requires
            all_wf(points@),
            height * points@.len() <= usize::MAX,
        ensures
            r.wf(),
            r.height == height,
            r.width == points@.len(),
            r@ == vandermonde_spec(values(points@), height as nat),
    {
        let width = points.len();
        let ghost pts = values(points@);
        let mut cur: Vec<Scalar> = Vec::new();
        let mut j: usize = 0;
        while j < width
            invariant
                width == points@.len(),
                j <= width,
                cur@.len() == j,
                all_wf(cur@),
                forall|b: int| 0 <= b < j ==> #[trigger] cur@[b]@ == 1,
            decreases width - j,
        {
            proof { lemma_modulus_facts(); }
            cur.push(Scalar::one());
            j = j + 1;
        }
        let mut rows: Vec<Vec<Scalar>> = Vec::new();
        let mut i: usize = 0;
        while i < height
            invariant
                width == points@.len(),
                all_wf(points@),
                pts == values(points@),
                i <= height,
                cur@.len() == width,
                all_wf(cur@),
                forall|b: int| 0 <= b < width ==> #[trigger] cur@[b]@ == fpow(pts[b], i as nat),
                rows@.len() == i,
                forall|a: int| 0 <= a < i ==> #[trigger] rows@[a]@.len() == width,
                forall|a: int| 0 <= a < i ==> all_wf(#[trigger] rows@[a]@),
                forall|a: int, b: int| 0 <= a < i && 0 <= b < width ==> #[trigger] rows@[a]@[b]@ == fpow(pts[b], a as nat),
            decreases height - i,
        {
            let mut row: Vec<Scalar> = Vec::new();
            let mut next: Vec<Scalar> = Vec::new();
            let mut b: usize = 0;
            while b < width
                invariant
                    width == points@.len(),
                    all_wf(points@),
                    pts == values(points@),
                    cur@.len() == width,
                    all_wf(cur@),
                    forall|c: int| 0 <= c < width ==> #[trigger] cur@[c]@ == fpow(pts[c], i as nat),
                    b <= width,
                    row@.len() == b,
                    next@.len() == b,
                    all_wf(row@),
                    all_wf(next@),
                    forall|c: int| 0 <= c < b ==> #[trigger] row@[c] == cur@[c],
                    forall|c: int| 0 <= c < b ==> #[trigger] next@[c]@ == fpow(pts[c], (i + 1) as nat),
                decreases width - b,
            {
                row.push(cur[b]);
                next.push(cur[b].mul(&points[b]));
                b = b + 1;
            }
            rows.push(row);
            cur = next;
            i = i + 1;
        }
        proof {
            assert(height * width <= usize::MAX);
        }
        let r = Matrix::from_rows(&rows, width);
        proof {
            let v = vandermonde_spec(pts, height as nat);
            assert forall|a: int| 0 <= a < height implies #[trigger] r@[a] =~= v[a] by {
                assert forall|b: int| 0 <= b < width implies r@[a][b] == v[a][b] by {
                    assert(rows@[a]@[b]@ == fpow(pts[b], a as nat));
                }
            }
            assert(r@ =~= v);
        }
        r
    }

    /// Builds the transposed Vandermonde matrix of some seed points, see
    /// [`Self::vandermonde_unchecked`], after checking that the points are
    /// distinct.
    ///
    /// The error names the first pair of equal points, in lexicographic order
    /// of their indices, and the decimal notation of their value.
    pub fn vandermonde(points: &[Scalar], height: usize) -> (r: Result<Matrix, KomodoError>)
        requires
            all_wf(points@),
            height * points@.len() <= usize::MAX,
        ensures
            match r {
                Ok(m) => {
                    &&& forall|a: int, b: int| 0 <= a < b < points@.len() ==> #[trigger] points@[a]@ != #[trigger] points@[b]@
                    &&& m.wf()
                    &&& m.height == height
                    &&& m.width == points@.len()
                    &&& m@ == vandermonde_spec(values(points@), height as nat)
                },
                Err(KomodoError::InvalidVandermonde { first_index, second_index, value_repr }) => {
                    &&& first_index < second_index < points@.len()
                    &&& points@[first_index as int]@ == points@[second_index as int]@
                    &&& value_repr@ == decimal_digits(points@[first_index as int]@)
                    &&& forall|a: int, b: int| 0 <= a < b < points@.len() && (a < first_index || (a == first_index && b < second_index))
                        ==> #[trigger] points@[a]@ != #[trigger] points@[b]@
                },
                Err(_) => false,
            },
    {
        let n = points.len();
        let mut i: usize = 0;
        while i < n
            invariant
                n == points@.len(),
                all_wf(points@),
                i <= n,
                forall|a: int, b: int| 0 <= a < b < n && a < i ==> #[trigger] points@[a]@ != #[trigger] points@[b]@,
            decreases n - i,
        {
            let mut j: usize = i + 1;
            while j < n
                invariant
                    n == points@.len(),
                    all_wf(points@),
                    i < n,
                    i + 1 <= j <= n,
                    forall|a: int, b: int| 0 <= a < b < n && a < i ==> #[trigger] points@[a]@ != #[trigger] points@[b]@,
                    forall|b: int| i < b < j ==> points@[i as int]@ != #[trigger] points@[b]@,
                decreases n - j,
            {
                if points[i].equals(&points[j]) {
                    let repr = points[i].repr();
                    return Err(KomodoError::InvalidVandermonde { first_index: i, second_index: j, value_repr: repr });
                }
                j = j + 1;
            }
            i = i + 1;
        }
        Ok(Matrix::vandermonde_unchecked(points, height))
    }

    /// Builds a random matrix of shape $n \times m$, whose elements are drawn
    /// as 128-bit integers.
    pub fn random(n: usize, m: usize, rng: &mut ark_std::rand::rngs::StdRng) -> (r: Matrix)
        requires
            n * m <= usize::MAX,
        ensures
            r.wf(),
            r.height == n,
            r.width == m,
            forall|i: int, j: int| 0 <= i < n && 0 <= j < m ==> #[trigger] r@[i][j] < 0x1_0000_0000_0000_0000_0000_0000_0000_0000nat,
    {
        let mut elements: Vec<Scalar> = Vec::new();
        let total = n * m;
        let mut t: usize = 0;
        proof { lemma_modulus_facts(); }
        while t < total
            invariant
                total == n * m,
                t <= total,
                elements@.len() == t,
                all_wf(elements@),
                forall|a: int| 0 <= a < t ==> #[trigger] elements@[a]@ < 0x1_0000_0000_0000_0000_0000_0000_0000_0000nat,
            decreases total - t,
        {
            let x = Scalar::from_u128(rng_u128(rng));
            proof {
                lemma_modulus_facts();
                vstd::arithmetic::div_mod::lemma_mod_decreases(x@, modulus_p());
            }
            elements.push(x);
            t = t + 1;
        }
        let r = Matrix { elements, height: n, width: m };
        proof {
            assert forall|i: int, j: int| 0 <= i < n && 0 <= j < m implies #[trigger] r@[i][j] < 0x1_0000_0000_0000_0000_0000_0000_0000_0000nat by {
                lemma_index_bound(i, j, n as int, m as int);
            }
        }
        r
    }

    /// Computes `row = row / value`.
    pub fn divide_row_by(&mut self, row: usize, value: Scalar)
        requires
            old(self).wf(),
            row < old(self).height,
            value.wf(),
            value@ != 0,
        ensures
            final(self).wf(),
            final(self).height == old(self).height,
            final(self).width == old(self).width,
            fmul(value@, finv(value@)) == 1,
            final(self)@ == row_scale(old(self)@, row as int, finv(value@)),
    {
        let inv = value.inverse().unwrap();
        proof { lemma_inverse_unique(value@, inv@); }
        let ghost before = self@;
        let mut j: usize = 0;
        proof {
            let init = Seq::new(self.width as nat, |t: int| if t < 0 { fmul(before[row as int][t], inv@) } else { before[row as int][t] });
            assert(init =~= before[row as int]);
            assert(before =~= before.update(row as int, init));
        }
        while j < self.width
            invariant
                self.wf(),
                row < self.height,
                before.len() == self.height,
                before[row as int].len() == self.width,
                inv.wf(),
                inv@ == finv(value@),
                j <= self.width,
                self@ == before.update(row as int, Seq::new(self.width as nat, |t: int| if t < j { fmul(before[row as int][t], inv@) } else { before[row as int][t] })),
            decreases self.width - j,
        {
            let x = self.get(row, j).mul(&inv);
            self.set(row, j, x);
            proof {
                assert(self@[row as int] =~= Seq::new(self.width as nat, |t: int| if t < j + 1 { fmul(before[row as int][t], inv@) } else { before[row as int][t] }));
                assert(self@ =~= before.update(row as int, Seq::new(self.width as nat, |t: int| if t < j + 1 { fmul(before[row as int][t], inv@) } else { before[row as int][t] })));
            }
            j = j + 1;
        }
        proof {
            let target = row_scale(before, row as int, finv(value@));
            assert(self@[row as int] =~= target[row as int]);
            assert(self@ =~= target);
        }
    }

    /// Computes `destination = destination + source * value`.
    pub fn multiply_row_by_and_add_to_row(&mut self, source: usize, value: Scalar, destination: usize)
        requires
            old(self).wf(),
            source < old(self).height,
            destination < old(self).height,
            value.wf(),
        ensures
            final(self).wf(),
            final(self).height == old(self).height,
            final(self).width == old(self).width,
            final(self)@ == row_add(old(self)@, source as int, value@, destination as int),
    {
        let ghost before = self@;
        let mut j: usize = 0;
        proof {
            let init = Seq::new(self.width as nat, |t: int| if t < 0 { fadd(before[destination as int][t], fmul(before[source as int][t], value@)) } else { before[destination as int][t] });
            assert(init =~= before[destination as int]);
            assert(before =~= before.update(destination as int, init));
        }
        while j < self.width
            invariant
                self.wf(),
                source < self.height,
                destination < self.height,
                before.len() == self.height,
                before[destination as int].len() == self.width,
                before[source as int].len() == self.width,
                value.wf(),
                j <= self.width,
                self@ == before.update(destination as int, Seq::new(self.width as nat, |t: int| if t < j { fadd(before[destination as int][t], fmul(before[source as int][t], value@)) } else { before[destination as int][t] })),
            decreases self.width - j,
        {
            let x = self.get(destination, j).add(&self.get(source, j).mul(&value));
            self.set(destination, j, x);
            proof {
                assert(self@[destination as int] =~= Seq::new(self.width as nat, |t: int| if t < j + 1 { fadd(before[destination as int][t], fmul(before[source as int][t], value@)) } else { before[destination as int][t] }));
                assert(self@ =~= before.update(destination as int, Seq::new(self.width as nat, |t: int| if t < j + 1 { fadd(before[destination as int][t], fmul(before[source as int][t], value@)) } else { before[destination as int][t] })));
            }
            j = j + 1;
        }
        proof {
            let target = row_add(before, source as int, value@, destination as int);
            assert(self@[destination as int] =~= target[destination as int]);
            assert(self@ =~= target);
        }
    }

    /// Swaps rows `i` and `j`, in place.
    pub fn swap_rows(&mut self, i: usize, j: usize)
        requires
            old(self).wf(),
            i < old(self).height,
            j < old(self).height,
        ensures
            final(self).wf(),
            final(self).height == old(self).height,
            final(self).width == old(self).width,
            final(self)@ == row_swap(old(self)@, i as int, j as int),
    {
        let ghost before = self@;
        let mut k: usize = 0;
        proof {
            let ri = Seq::new(self.width as nat, |t: int| if t < 0 { before[j as int][t] } else { before[i as int][t] });
            let rj = Seq::new(self.width as nat, |t: int| if t < 0 { before[i as int][t] } else { before[j as int][t] });
            assert(ri =~= before[i as int]);
            assert(rj =~= before[j as int]);
            assert(before =~= before.update(i as int, ri).update(j as int, rj));
        }
        while k < self.width
            invariant
                self.wf(),
                i < self.height,
                j < self.height,
                before.len() == self.height,
                before[i as int].len() == self.width,
                before[j as int].len() == self.width,
                k <= self.width,
                self@ == before.update(i as int, Seq::new(self.width as nat, |t: int| if t < k { before[j as int][t] } else { before[i as int][t] }))
                    .update(j as int, Seq::new(self.width as nat, |t: int| if t < k { before[i as int][t] } else { before[j as int][t] })),
            decreases self.width - k,
        {
            let a = self.get(i, k);
            let b = self.get(j, k);
            self.set(i, k, b);
            self.set(j, k, a);
            proof {
                let ri = Seq::new(self.width as nat, |t: int| if t < k + 1 { before[j as int][t] } else { before[i as int][t] });
                let rj = Seq::new(self.width as nat, |t: int| if t < k + 1 { before[i as int][t] } else { before[j as int][t] });
                if i == j {
                    assert(self@[j as int] =~= rj);
                    assert(ri =~= rj);
                } else {
                    assert(self@[i as int] =~= ri);
                    assert(self@[j as int] =~= rj);
                }
                assert(self@ =~= before.update(i as int, ri).update(j as int, rj));
            }
            k = k + 1;
        }
        proof {
            let target = row_swap(before, i as int, j as int);
            assert(self@[i as int] =~= target[i as int]);
            assert(self@[j as int] =~= target[j as int]);
            assert(self@ =~= target);
        }
    }

    /// Truncates the matrix to the provided shape, from the right and the
    /// bottom: `rows` rows and `cols` columns are removed.
    pub fn truncate(&self, rows: Option<usize>, cols: Option<usize>) -> (r: Matrix)
        requires
            self.wf(),
            rows matches Some(h) ==> h <= self.height,
            cols matches Some(w) ==> w <= self.width,
        ensures
            r.wf(),
            r.height == match rows { Some(h) => self.height - h, None => self.height as int },
            r.width == match cols { Some(w) => self.width - w, None => self.width as int },
            r@ == Seq::new(r.height as nat, |i: int| Seq::new(r.width as nat, |j: int| self@[i][j])),
    {
        let width = match cols { Some(w) => self.width - w, None => self.width };
        let height = match rows { Some(h) => self.height - h, None => self.height };
        let mut out: Vec<Vec<Scalar>> = Vec::new();
        let mut i: usize = 0;
        while i < height
            invariant
                self.wf(),
                height <= self.height,
                width <= self.width,
                i <= height,
                out@.len() == i,
                forall|a: int| 0 <= a < i ==> #[trigger] out@[a]@.len() == width,
                forall|a: int| 0 <= a < i ==> all_wf(#[trigger] out@[a]@),
                forall|a: int, b: int| 0 <= a < i && 0 <= b < width ==> #[trigger] out@[a]@[b]@ == self@[a][b],
            decreases height - i,
        {
            let mut row: Vec<Scalar> = Vec::new();
            let mut j: usize = 0;
            while j < width
                invariant
                    self.wf(),
                    height <= self.height,
                    width <= self.width,
                    i < height,
                    j <= width,
                    row@.len() == j,
                    all_wf(row@),
                    forall|b: int| 0 <= b < j ==> #[trigger] row@[b]@ == self@[i as int][b],
                decreases width - j,
            {
                row.push(self.get(i, j));
                j = j + 1;
            }
            out.push(row);
            i = i + 1;
        }
        proof {
            assert(height * width <= self.height * self.width) by (nonlinear_arith)
                requires
                    height <= self.height,
                    width <= self.width,
            ;
        }
        let n = self.elements.len();
        let r = Matrix::from_rows(&out, width);
        proof {
            let t = Seq::new(r.height as nat, |i: int| Seq::new(r.width as nat, |j: int| self@[i][j]));
            assert forall|a: int| 0 <= a < height implies #[trigger] r@[a] =~= t[a] by {
                assert forall|b: int| 0 <= b < width implies r@[a][b] == t[a][b] by {
                    assert(out@[a]@[b]@ == self@[a][b]);
                }
            }
            assert(r@ =~= t);
        }
        r
    }
}

} // verus!
