//! Matrices over $\mathbb{F}_p$ as mathematical objects: sequences of rows of
//! canonical representatives, their product, and the laws of row and column
//! operations that Gaussian elimination relies on.
use vstd::prelude::*;
use vstd::arithmetic::div_mod::*;
use crate::field::{congruent, fadd, fmul, fneg, modulus_p, lemma_modulus_facts};
use crate::algebra::sums::{
    sum, lemma_cong_add, lemma_cong_mul, lemma_cong_neg, lemma_cong_refl_mod, lemma_sum_cong,
    lemma_sum_cong_two, lemma_sum_ext, lemma_sum_linear, lemma_sum_single, lemma_sum_swap,
};

verus! {

/// `a` is an `h x w` matrix of canonical representatives.
pub open spec fn is_mat(a: Seq<Seq<nat>>, h: nat, w: nat) -> bool {
    &&& a.len() == h
    &&& forall|i: int| 0 <= i < h ==> #[trigger] a[i].len() == w
    &&& forall|i: int, j: int| 0 <= i < h && 0 <= j < w ==> #[trigger] a[i][j] < modulus_p()
}

/// $\sum_{k < n} u_k b_{k, j}$, as an integer.
pub open spec fn dot(u: Seq<nat>, b: Seq<Seq<nat>>, j: int, n: nat) -> int {
    sum(n, |k: int| (u[k] * b[k][j]) as int)
}

/// The product of `a` (with `n` columns) by `b` (with `w` columns).
pub open spec fn mat_mul(a: Seq<Seq<nat>>, b: Seq<Seq<nat>>, n: nat, w: nat) -> Seq<Seq<nat>> {
    Seq::new(a.len(), |i: int| Seq::new(w, |j: int| (dot(a[i], b, j, n) % (modulus_p() as int)) as nat))
}

/// The identity matrix of size `n`.
pub open spec fn identity(n: nat) -> Seq<Seq<nat>> {
    Seq::new(n, |i: int| Seq::new(n, |j: int| if i == j { 1nat } else { 0nat }))
}

/// The transpose of the `h x w` matrix `a`.
pub open spec fn transpose(a: Seq<Seq<nat>>, h: nat, w: nat) -> Seq<Seq<nat>> {
    Seq::new(w, |i: int| Seq::new(h, |j: int| a[j][i]))
}

/// The `h x w` matrix of zeros.
pub open spec fn zeros(h: nat, w: nat) -> Seq<Seq<nat>> {
    Seq::new(h, |i: int| Seq::new(w, |j: int| 0nat))
}

/// The column vector of the entries of `v`.
pub open spec fn col_vec(v: Seq<nat>) -> Seq<Seq<nat>> {
    Seq::new(v.len(), |t: int| seq![v[t]])
}

/// `v` is a nonzero vector of the kernel of the `n x n` matrix `m` whose
/// last nonzero coordinate is coordinate `i`, equal to one: column `i` of `m`
/// is a combination of the columns before it.
pub open spec fn is_kernel_witness(m: Seq<Seq<nat>>, n: nat, v: Seq<nat>, i: nat) -> bool {
    &&& v.len() == n
    &&& i < n
    &&& v[i as int] == 1
    &&& forall|t: int| i < t < n ==> #[trigger] v[t] == 0
    &&& forall|t: int| 0 <= t < n ==> #[trigger] v[t] < modulus_p()
    &&& mat_mul(m, col_vec(v), n, 1) == zeros(n, 1)
}

/// Column `i` of the `n x n` matrix `m` is a combination of the columns
/// before it, so that `m` has no inverse.
pub open spec fn dependent_column(m: Seq<Seq<nat>>, n: nat, i: nat) -> bool {
    exists|v: Seq<nat>| is_kernel_witness(m, n, v, i)
}

/// `inv` is the inverse of the $n \times n$ matrix `a`.
pub open spec fn is_inverse(a: Seq<Seq<nat>>, inv: Seq<Seq<nat>>, n: nat) -> bool {
    &&& is_mat(inv, n, n)
    &&& mat_mul(inv, a, n, n) == identity(n)
    &&& mat_mul(a, inv, n, n) == identity(n)
}

/// No column of an invertible matrix is a combination of the columns before
/// it.
pub proof fn lemma_inverse_has_no_dependent_column(a: Seq<Seq<nat>>, inv: Seq<Seq<nat>>, n: nat, i: nat)
    requires
        is_mat(a, n, n),
        is_inverse(a, inv, n),
    ensures
        !dependent_column(a, n, i),
{
    if dependent_column(a, n, i) {
        let v = choose|v: Seq<nat>| is_kernel_witness(a, n, v, i);
        let cv = col_vec(v);
        assert(is_mat(cv, n, 1)) by {
            assert forall|r: int| 0 <= r < n implies #[trigger] cv[r].len() == 1 by {}
        }
        lemma_mul_assoc(inv, a, cv, n, n, n, 1);
        lemma_mul_identity_left(cv, n, 1);
        lemma_mul_zeros(inv, n, n, 1);
        assert(cv == zeros(n, 1));
        assert(cv[i as int][0] == 1);
        assert(zeros(n, 1)[i as int][0] == 0);
    }
}

/// Some column of the `n x n` matrix `m` is a combination of the columns
/// before it, so that `m` has no inverse.
pub open spec fn singular(m: Seq<Seq<nat>>, n: nat) -> bool {
    exists|c: nat| dependent_column(m, n, c)
}

/// The leading principal submatrix of size `s`: the first `s` entries of
/// each of the first `s` rows.
pub open spec fn leading(m: Seq<Seq<nat>>, s: nat) -> Seq<Seq<nat>> {
    Seq::new(s, |r: int| m[r].take(s as int))
}

/// Gauss-Jordan elimination without row exchanges, having reduced the
/// columns before `i`, finds a zero pivot on row `i`: column `i` of the
/// leading principal submatrix of size $i + 1$ is a combination of the
/// columns before it (elimination reaches row `i` only where the smaller
/// leading submatrices are invertible, and then the pivot vanishes exactly
/// when this one is not).
pub open spec fn zero_pivot_at(m: Seq<Seq<nat>>, i: nat) -> bool {
    dependent_column(leading(m, i + 1), i + 1, i)
}

/// Row `i` of the `n x n` matrix `m` is the first at which Gauss-Jordan
/// elimination without row exchanges finds a zero pivot.
pub open spec fn is_first_zero_pivot(m: Seq<Seq<nat>>, n: nat, i: nat) -> bool {
    &&& i < n
    &&& zero_pivot_at(m, i)
    &&& forall|j: nat| j < i ==> !zero_pivot_at(m, j)
}

/// A sum whose terms vanish from `m` on equals its first `m` terms.
proof fn lemma_sum_prefix(n: nat, m: nat, f: spec_fn(int) -> int)
    requires
        m <= n,
        forall|k: int| m <= k < n ==> #[trigger] f(k) == 0,
    ensures
        sum(n, f) == sum(m, f),
    decreases n,
{
    if n > m {
        lemma_sum_prefix((n - 1) as nat, m, f);
    }
}

/// Where column `c` of a leading principal submatrix of size `s` is a
/// combination of the columns before it, so is column `c` of the one of
/// size $c + 1$: elimination without row exchanges finds a zero pivot at `c`.
pub proof fn lemma_dependent_leading(m: Seq<Seq<nat>>, s: nat, c: nat)
    requires
        s <= m.len(),
        forall|r: int| 0 <= r < s ==> #[trigger] m[r].len() >= s,
        dependent_column(leading(m, s), s, c),
    ensures
        c < s,
        zero_pivot_at(m, c),
{
    let big = leading(m, s);
    let v = choose|v: Seq<nat>| is_kernel_witness(big, s, v, c);
    let small = leading(m, c + 1);
    let w = v.take((c + 1) as int);
    assert forall|r: int, j: int| 0 <= r < c + 1 && 0 <= j < 1 implies #[trigger] mat_mul(small, col_vec(w), c + 1, 1)[r][j] == zeros(c + 1, 1)[r][j] by {
        let f = |k: int| (big[r][k] * col_vec(v)[k][0]) as int;
        let g = |k: int| (small[r][k] * col_vec(w)[k][0]) as int;
        assert(mat_mul(big, col_vec(v), s, 1)[r][0] == zeros(s, 1)[r][0]);
        assert forall|k: int| c + 1 <= k < s implies #[trigger] f(k) == 0 by {
            assert(v[k] == 0);
            assert(col_vec(v)[k] == seq![v[k]]);
            assert(col_vec(v)[k][0] == 0);
            assert(big[r][k] * 0 == 0);
        }
        lemma_sum_prefix(s, c + 1, f);
        assert forall|k: int| 0 <= k < c + 1 implies #[trigger] f(k) == g(k) by {}
        lemma_sum_ext(c + 1, f, g);
    }
    assert forall|r: int| 0 <= r < c + 1 implies #[trigger] mat_mul(small, col_vec(w), c + 1, 1)[r] =~= zeros(c + 1, 1)[r] by {}
    assert(mat_mul(small, col_vec(w), c + 1, 1) =~= zeros(c + 1, 1));
    assert(is_kernel_witness(small, c + 1, w, c));
}

/// The `h x w` matrix `e` is in row echelon form with `r` nonzero rows: each
/// of the first `r` rows starts with zeros up to a nonzero pivot, the pivots
/// move strictly to the right, and the other rows are zero.
pub open spec fn is_echelon(e: Seq<Seq<nat>>, h: nat, w: nat, r: nat) -> bool {
    &&& r <= h
    &&& exists|pc: Seq<nat>| is_pivot_sequence(e, w, r, pc)
    &&& forall|a: int, c: int| r <= a < h && 0 <= c < w ==> #[trigger] e[a][c] == 0
}

/// `pc` lists the pivot columns of the first `r` rows of `e`.
pub open spec fn is_pivot_sequence(e: Seq<Seq<nat>>, w: nat, r: nat, pc: Seq<nat>) -> bool {
    &&& pc.len() == r
    &&& forall|a: int, b: int| 0 <= a < b < r ==> #[trigger] pc[a] < #[trigger] pc[b]
    &&& forall|a: int| 0 <= a < r ==> #[trigger] pc[a] < w && e[a][pc[a] as int] != 0
    &&& forall|a: int, c: int| 0 <= a < r && 0 <= c < pc[a] ==> #[trigger] e[a][c] == 0
}

/// The rank of the `h x w` matrix `m` is `r`: some invertible matrix `t`
/// (with a left inverse `u`) brings `m` to a row echelon form with `r`
/// nonzero rows.
pub open spec fn has_rank(m: Seq<Seq<nat>>, h: nat, w: nat, r: nat) -> bool {
    exists|t: Seq<Seq<nat>>, u: Seq<Seq<nat>>| #[trigger] is_rank_witness(m, h, w, r, t, u)
}

/// `t` has the left inverse `u` and brings `m` to a row echelon form with `r`
/// nonzero rows.
pub open spec fn is_rank_witness(m: Seq<Seq<nat>>, h: nat, w: nat, r: nat, t: Seq<Seq<nat>>, u: Seq<Seq<nat>>) -> bool {
    &&& is_mat(t, h, h)
    &&& is_mat(u, h, h)
    &&& mat_mul(u, t, h, h) == identity(h)
    &&& is_echelon(mat_mul(t, m, h, w), h, w, r)
}

/// Rows `i` and `k` exchanged.
pub open spec fn row_swap(a: Seq<Seq<nat>>, i: int, k: int) -> Seq<Seq<nat>> {
    a.update(i, a[k]).update(k, a[i])
}

/// Row `i` multiplied by `d`.
pub open spec fn row_scale(a: Seq<Seq<nat>>, i: int, d: nat) -> Seq<Seq<nat>> {
    a.update(i, Seq::new(a[i].len(), |j: int| fmul(a[i][j], d)))
}

/// Row `dst` increased by `v` times row `src`.
pub open spec fn row_add(a: Seq<Seq<nat>>, src: int, v: nat, dst: int) -> Seq<Seq<nat>> {
    a.update(dst, Seq::new(a[dst].len(), |j: int| fadd(a[dst][j], fmul(a[src][j], v))))
}

/// Columns `i` and `k` exchanged.
pub open spec fn col_swap(a: Seq<Seq<nat>>, i: int, k: int) -> Seq<Seq<nat>> {
    Seq::new(a.len(), |r: int| a[r].update(i, a[r][k]).update(k, a[r][i]))
}

/// Column `i` multiplied by `c`.
pub open spec fn col_scale(a: Seq<Seq<nat>>, i: int, c: nat) -> Seq<Seq<nat>> {
    Seq::new(a.len(), |r: int| a[r].update(i, fmul(a[r][i], c)))
}

/// Column `dst` increased by `v` times column `src`.
pub open spec fn col_add(a: Seq<Seq<nat>>, src: int, v: nat, dst: int) -> Seq<Seq<nat>> {
    Seq::new(a.len(), |r: int| a[r].update(dst, fadd(a[r][dst], fmul(a[r][src], v))))
}

/// The column operations keep a matrix of canonical representatives.
pub proof fn lemma_col_ops_is_mat(u: Seq<Seq<nat>>, h: nat, n: nat, i: int, k: int, c: nat)
    requires
        is_mat(u, h, n),
        0 <= i < n,
        0 <= k < n,
    ensures
        is_mat(col_swap(u, i, k), h, n),
        is_mat(col_scale(u, i, c), h, n),
        is_mat(col_add(u, k, c, i), h, n),
{
    lemma_modulus_facts();
    let a = col_swap(u, i, k);
    let b = col_scale(u, i, c);
    let d = col_add(u, k, c, i);
    assert forall|r: int| 0 <= r < h implies #[trigger] a[r].len() == n && b[r].len() == n && d[r].len() == n by {}
    assert forall|r: int, j: int| 0 <= r < h && 0 <= j < n implies #[trigger] a[r][j] < modulus_p() by {}
    assert forall|r: int, j: int| 0 <= r < h && 0 <= j < n implies #[trigger] b[r][j] < modulus_p() by {}
    assert forall|r: int, j: int| 0 <= r < h && 0 <= j < n implies #[trigger] d[r][j] < modulus_p() by {}
}

/// Subtracting `r e` is adding `e` times the opposite of `r`.
pub proof fn lemma_sub_is_add_neg(a: nat, r: nat, e: nat)
    requires
        a < modulus_p(),
    ensures
        crate::field::fsub(a, fmul(r, e)) == fadd(a, fmul(e, fneg(r))),
{
    lemma_modulus_facts();
    let p = modulus_p() as int;
    let x = fmul(r, e) as int;
    let y = fmul(e, fneg(r)) as int;
    lemma_cong_refl_mod((r * e) as int);
    lemma_cong_neg(x, (r * e) as int);
    lemma_cong_add(a as int, a as int, 0 - x, 0 - (r * e) as int);
    lemma_cong_refl_mod(0 - (r as int));
    lemma_cong_mul(fneg(r) as int, 0 - (r as int), e as int);
    lemma_cong_refl_mod((e * fneg(r)) as int);
    assert((0 - (r as int)) * e == 0 - (r * e) as int) by (nonlinear_arith);
    assert(fneg(r) as int * e == (e * fneg(r)) as int) by (nonlinear_arith);
    lemma_cong_add(a as int, a as int, y, 0 - (r * e) as int);
    lemma_cong_refl_mod(a - x);
    lemma_cong_refl_mod(a + y);
    lemma_mod_bound(a - x, p);
    lemma_mod_bound(a + y, p);
    lemma_cong_canonical(crate::field::fsub(a, fmul(r, e)), fadd(a, fmul(e, fneg(r))));
}

/// Eliminating `x` with the pivot `p`, of inverse `q`, gives zero.
pub proof fn lemma_eliminate(x: nat, p: nat, q: nat)
    requires
        x < modulus_p(),
        fmul(p, q) == 1,
    ensures
        fadd(x, fmul(p, fneg(fmul(x, q)))) == 0,
{
    lemma_modulus_facts();
    let m = modulus_p() as int;
    let xq = fmul(x, q);
    lemma_cong_refl_mod((x * q) as int);
    lemma_cong_refl_mod(0 - (xq as int));
    lemma_cong_neg(xq as int, (x * q) as int);
    lemma_cong_mul(fneg(xq) as int, 0 - (x * q) as int, p as int);
    lemma_cong_refl_mod((p * fneg(xq)) as int);
    lemma_cong_refl_mod((p * q) as int);
    lemma_cong_mul((p * q) as int, 1, x as int);
    assert((0 - (x * q) as int) * p == 0 - x * (p * q)) by (nonlinear_arith);
    assert(fneg(xq) as int * p == (p * fneg(xq)) as int) by (nonlinear_arith);
    lemma_cong_mul((p * q) as int, 1, x as int);
    assert((p * q) as int * x == x * (p * q)) by (nonlinear_arith);
    lemma_cong_neg((x * (p * q)) as int, (x * 1) as int);
    lemma_cong_add(x as int, x as int, fmul(p, fneg(xq)) as int, 0 - x * 1);
    lemma_cong_refl_mod((x + fmul(p, fneg(xq))) as int);
    lemma_mod_bound((x + fmul(p, fneg(xq))) as int, m);
    lemma_small_mod(0, modulus_p());
    lemma_cong_canonical(fadd(x, fmul(p, fneg(xq))), 0);
}

/// Two canonical representatives that are congruent are equal.
pub proof fn lemma_cong_canonical(x: nat, y: nat)
    requires
        x < modulus_p(),
        y < modulus_p(),
        congruent(x as int, y as int),
    ensures
        x == y,
{
    lemma_modulus_facts();
    lemma_small_mod(x, modulus_p());
    lemma_small_mod(y, modulus_p());
}

/// If each `u'_k` is congruent to `a u_k + c z_k`, the same holds of the dot
/// products with any column.
pub proof fn lemma_dot_comb(u2: Seq<nat>, u: Seq<nat>, z: Seq<nat>, b: Seq<Seq<nat>>, j: int, n: nat, a: int, c: int)
    requires
        forall|k: int| 0 <= k < n ==> congruent(#[trigger] u2[k] as int, a * u[k] + c * z[k]),
    ensures
        congruent(dot(u2, b, j, n), a * dot(u, b, j, n) + c * dot(z, b, j, n)),
{
    let f2 = |k: int| (u2[k] * b[k][j]) as int;
    let fu = |k: int| (u[k] * b[k][j]) as int;
    let fz = |k: int| (z[k] * b[k][j]) as int;
    let g = |k: int| a * fu(k) + c * fz(k);
    assert forall|k: int| 0 <= k < n implies congruent(#[trigger] f2(k), g(k)) by {
        lemma_cong_mul(u2[k] as int, a * u[k] + c * z[k], b[k][j] as int);
        let x = u[k] as int;
        let y = z[k] as int;
        let bb = b[k][j] as int;
        assert((a * x + c * y) * bb == a * (x * bb) + c * (y * bb)) by (nonlinear_arith);
    }
    lemma_sum_cong(n, f2, g);
    lemma_sum_linear(n, g, fu, fz, a, c);
}

/// Scaling a row of the left factor scales the same row of the product.
pub proof fn lemma_mul_row_scale(x: Seq<Seq<nat>>, m: Seq<Seq<nat>>, h: nat, n: nat, w: nat, i: int, d: nat)
    requires
        is_mat(x, h, n),
        is_mat(m, n, w),
        0 <= i < h,
    ensures
        mat_mul(row_scale(x, i, d), m, n, w) == row_scale(mat_mul(x, m, n, w), i, d),
{
    lemma_modulus_facts();
    let p = modulus_p() as int;
    let lhs = mat_mul(row_scale(x, i, d), m, n, w);
    let rhs = row_scale(mat_mul(x, m, n, w), i, d);
    assert forall|r: int| 0 <= r < h implies #[trigger] lhs[r] =~= rhs[r] by {
        if r == i {
            assert forall|j: int| 0 <= j < w implies lhs[r][j] == rhs[r][j] by {
                let row2 = row_scale(x, i, d)[i];
                assert forall|k: int| 0 <= k < n implies congruent(#[trigger] row2[k] as int, (d * x[i][k] + 0 * x[i][k]) as int) by {
                    lemma_cong_refl_mod((x[i][k] * d) as int);
                }
                lemma_dot_comb(row2, x[i], x[i], m, j, n, d as int, 0);
                let dt = dot(x[i], m, j, n);
                lemma_cong_refl_mod(dot(row2, m, j, n));
                lemma_cong_refl_mod(dt);
                lemma_cong_mul(dt % p, dt, d as int);
                lemma_cong_refl_mod((dt % p) * d);
                lemma_mod_bound(dt, p);
                lemma_mod_bound(dot(row2, m, j, n), p);
                lemma_cong_canonical(lhs[r][j], rhs[r][j]);
            }
        }
    }
    assert(lhs =~= rhs);
}

/// Adding a multiple of a row of the left factor to another row does the same
/// to the product.
pub proof fn lemma_mul_row_add(x: Seq<Seq<nat>>, m: Seq<Seq<nat>>, h: nat, n: nat, w: nat, src: int, v: nat, dst: int)
    requires
        is_mat(x, h, n),
        is_mat(m, n, w),
        0 <= src < h,
        0 <= dst < h,
    ensures
        mat_mul(row_add(x, src, v, dst), m, n, w) == row_add(mat_mul(x, m, n, w), src, v, dst),
{
    lemma_modulus_facts();
    let p = modulus_p() as int;
    let xm = mat_mul(x, m, n, w);
    let lhs = mat_mul(row_add(x, src, v, dst), m, n, w);
    let rhs = row_add(xm, src, v, dst);
    assert forall|r: int| 0 <= r < h implies #[trigger] lhs[r] =~= rhs[r] by {
        if r == dst {
            assert forall|j: int| 0 <= j < w implies lhs[r][j] == rhs[r][j] by {
                let row2 = row_add(x, src, v, dst)[dst];
                assert forall|k: int| 0 <= k < n implies congruent(#[trigger] row2[k] as int, (1 * x[dst][k] + v * x[src][k]) as int) by {
                    lemma_cong_refl_mod((x[src][k] * v) as int);
                    lemma_cong_add(x[dst][k] as int, x[dst][k] as int, fmul(x[src][k], v) as int, (x[src][k] * v) as int);
                    lemma_cong_refl_mod((x[dst][k] + fmul(x[src][k], v)) as int);
                }
                lemma_dot_comb(row2, x[dst], x[src], m, j, n, 1, v as int);
                let dd = dot(x[dst], m, j, n);
                let ds = dot(x[src], m, j, n);
                lemma_cong_refl_mod(dot(row2, m, j, n));
                lemma_cong_refl_mod(dd);
                lemma_cong_refl_mod(ds);
                lemma_cong_mul(ds % p, ds, v as int);
                lemma_cong_refl_mod((ds % p) * v);
                lemma_cong_add(dd % p, dd, fmul(xm[src][j], v) as int, ds * v);
                lemma_cong_refl_mod(dd % p + fmul(xm[src][j], v));
                assert(v * ds == ds * v) by (nonlinear_arith);
                lemma_mod_bound(dot(row2, m, j, n), p);
                lemma_cong_canonical(lhs[r][j], rhs[r][j]);
            }
        }
    }
    assert(lhs =~= rhs);
}

/// Exchanging two rows of the left factor exchanges the same rows of the product.
pub proof fn lemma_mul_row_swap(x: Seq<Seq<nat>>, m: Seq<Seq<nat>>, h: nat, n: nat, w: nat, i: int, k: int)
    requires
        is_mat(x, h, n),
        0 <= i < h,
        0 <= k < h,
    ensures
        mat_mul(row_swap(x, i, k), m, n, w) == row_swap(mat_mul(x, m, n, w), i, k),
{
    let lhs = mat_mul(row_swap(x, i, k), m, n, w);
    let rhs = row_swap(mat_mul(x, m, n, w), i, k);
    assert forall|r: int| 0 <= r < h implies #[trigger] lhs[r] =~= rhs[r] by {}
    assert(lhs =~= rhs);
}

/// Exchanging two columns of the left factor and the same two rows of the
/// right factor leaves the product unchanged.
pub proof fn lemma_pair_swap(u: Seq<Seq<nat>>, x: Seq<Seq<nat>>, h: nat, n: nat, w: nat, i: int, k: int)
    requires
        is_mat(u, h, n),
        is_mat(x, n, w),
        0 <= i < n,
        0 <= k < n,
    ensures
        mat_mul(col_swap(u, i, k), row_swap(x, i, k), n, w) == mat_mul(u, x, n, w),
{
    let lhs = mat_mul(col_swap(u, i, k), row_swap(x, i, k), n, w);
    let rhs = mat_mul(u, x, n, w);
    let u2 = col_swap(u, i, k);
    let x2 = row_swap(x, i, k);
    assert forall|r: int| 0 <= r < h implies #[trigger] lhs[r] =~= rhs[r] by {
        assert forall|c: int| 0 <= c < w implies lhs[r][c] == rhs[r][c] by {
            let f = |j: int| (u2[r][j] * x2[j][c]) as int;
            let g = |j: int| (u[r][j] * x[j][c]) as int;
            if i != k {
                assert forall|j: int| 0 <= j < n && j != i && j != k implies congruent(#[trigger] f(j), g(j)) by {}
                lemma_sum_cong_two(n, f, g, i, k);
            } else {
                assert forall|j: int| 0 <= j < n implies congruent(#[trigger] f(j), g(j)) by {}
                lemma_sum_cong(n, f, g);
            }
            lemma_modulus_facts();
            lemma_mod_bound(sum(n, f), modulus_p() as int);
            lemma_mod_bound(sum(n, g), modulus_p() as int);
            lemma_cong_refl_mod(sum(n, f));
            lemma_cong_refl_mod(sum(n, g));
            lemma_cong_canonical(lhs[r][c], rhs[r][c]);
        }
    }
    assert(lhs =~= rhs);
}

/// Multiplying a column of the left factor by `c` and the same row of the
/// right factor by an inverse `d` of `c` leaves the product unchanged.
pub proof fn lemma_pair_scale(u: Seq<Seq<nat>>, x: Seq<Seq<nat>>, h: nat, n: nat, w: nat, i: int, c: nat, d: nat)
    requires
        is_mat(u, h, n),
        is_mat(x, n, w),
        0 <= i < n,
        fmul(c, d) == 1,
    ensures
        mat_mul(col_scale(u, i, c), row_scale(x, i, d), n, w) == mat_mul(u, x, n, w),
{
    lemma_modulus_facts();
    let lhs = mat_mul(col_scale(u, i, c), row_scale(x, i, d), n, w);
    let rhs = mat_mul(u, x, n, w);
    let u2 = col_scale(u, i, c);
    let x2 = row_scale(x, i, d);
    assert forall|r: int| 0 <= r < h implies #[trigger] lhs[r] =~= rhs[r] by {
        assert forall|col: int| 0 <= col < w implies lhs[r][col] == rhs[r][col] by {
            let f = |j: int| (u2[r][j] * x2[j][col]) as int;
            let g = |j: int| (u[r][j] * x[j][col]) as int;
            assert forall|j: int| 0 <= j < n implies congruent(#[trigger] f(j), g(j)) by {
                if j == i {
                    let a = u[r][i] as int;
                    let b = x[i][col] as int;
                    lemma_cong_refl_mod(a * c);
                    lemma_cong_refl_mod(b * d);
                    lemma_cong_mul(fmul(u[r][i], c) as int, a * c, fmul(x[i][col], d) as int);
                    lemma_cong_mul(fmul(x[i][col], d) as int, b * d, a * c);
                    lemma_cong_refl_mod((c * d) as int);
                    lemma_cong_mul((c * d) as int, 1, a * b);
                    assert((a * c) * (b * d) == (a * b) * (c * d)) by (nonlinear_arith);
                    assert((a * c) * fmul(x[i][col], d) == fmul(x[i][col], d) * (a * c)) by (nonlinear_arith);
                }
            }
            lemma_sum_cong(n, f, g);
            lemma_mod_bound(sum(n, f), modulus_p() as int);
            lemma_mod_bound(sum(n, g), modulus_p() as int);
            lemma_cong_refl_mod(sum(n, f));
            lemma_cong_refl_mod(sum(n, g));
            lemma_cong_canonical(lhs[r][col], rhs[r][col]);
        }
    }
    assert(lhs =~= rhs);
}

/// Adding `v` times row `i` to row `k` of the right factor, and adding `-v`
/// times column `k` to column `i` of the left factor, leaves the product
/// unchanged.
pub proof fn lemma_pair_add(u: Seq<Seq<nat>>, x: Seq<Seq<nat>>, h: nat, n: nat, w: nat, i: int, v: nat, k: int)
    requires
        is_mat(u, h, n),
        is_mat(x, n, w),
        0 <= i < n,
        0 <= k < n,
        i != k,
        v < modulus_p(),
    ensures
        mat_mul(col_add(u, k, fneg(v), i), row_add(x, i, v, k), n, w) == mat_mul(u, x, n, w),
{
    lemma_modulus_facts();
    let p = modulus_p() as int;
    let lhs = mat_mul(col_add(u, k, fneg(v), i), row_add(x, i, v, k), n, w);
    let rhs = mat_mul(u, x, n, w);
    let u2 = col_add(u, k, fneg(v), i);
    let x2 = row_add(x, i, v, k);
    assert forall|r: int| 0 <= r < h implies #[trigger] lhs[r] =~= rhs[r] by {
        assert forall|col: int| 0 <= col < w implies lhs[r][col] == rhs[r][col] by {
            let f = |j: int| (u2[r][j] * x2[j][col]) as int;
            let g = |j: int| (u[r][j] * x[j][col]) as int;
            assert forall|j: int| 0 <= j < n && j != i && j != k implies congruent(#[trigger] f(j), g(j)) by {}
            let a = u[r][i] as int;
            let b = u[r][k] as int;
            let y = x[i][col] as int;
            let z = x[k][col] as int;
            let vv = v as int;
            // u2[r][i] is congruent to a - v b, x2[k][col] to z + v y
            lemma_cong_refl_mod(0 - vv);
            lemma_cong_mul(fneg(v) as int, 0 - vv, b);
            lemma_cong_refl_mod(b * fneg(v));
            lemma_cong_add(a, a, fmul(u[r][k], fneg(v)) as int, b * (0 - vv));
            lemma_cong_refl_mod(a + fmul(u[r][k], fneg(v)));
            lemma_cong_refl_mod(y * vv);
            lemma_cong_add(z, z, fmul(x[i][col], v) as int, y * vv);
            lemma_cong_refl_mod(z + fmul(x[i][col], v));
            assert(u2[r][i] == fadd(u[r][i], fmul(u[r][k], fneg(v))));
            assert(x2[k][col] == fadd(x[k][col], fmul(x[i][col], v)));
            lemma_cong_mul(u2[r][i] as int, a + b * (0 - vv), y);
            lemma_cong_mul(x2[k][col] as int, z + y * vv, b);
            assert(f(i) == u2[r][i] * y);
            assert(f(k) == b * x2[k][col]);
            assert(x2[k][col] * b == b * x2[k][col]) by (nonlinear_arith);
            lemma_cong_add(f(i), (a + b * (0 - vv)) * y, f(k), (z + y * vv) * b);
            assert((a + b * (0 - vv)) * y + (z + y * vv) * b == a * y + b * z) by (nonlinear_arith);
            assert(g(i) + g(k) == a * y + b * z);
            lemma_sum_cong_two(n, f, g, i, k);
            lemma_mod_bound(sum(n, f), p);
            lemma_mod_bound(sum(n, g), p);
            lemma_cong_refl_mod(sum(n, f));
            lemma_cong_refl_mod(sum(n, g));
            lemma_cong_canonical(lhs[r][col], rhs[r][col]);
        }
    }
    assert(lhs =~= rhs);
}

/// The identity is neutral on the right.
pub proof fn lemma_mul_identity_right(u: Seq<Seq<nat>>, h: nat, n: nat)
    requires
        is_mat(u, h, n),
    ensures
        mat_mul(u, identity(n), n, n) == u,
{
    lemma_modulus_facts();
    let lhs = mat_mul(u, identity(n), n, n);
    assert forall|r: int| 0 <= r < h implies #[trigger] lhs[r] =~= u[r] by {
        assert forall|c: int| 0 <= c < n implies lhs[r][c] == u[r][c] by {
            let f = |k: int| (u[r][k] * identity(n)[k][c]) as int;
            assert forall|k: int| 0 <= k < n && k != c implies #[trigger] f(k) == 0 by {}
            lemma_sum_single(n, f, c);
            lemma_small_mod(u[r][c], modulus_p());
        }
    }
    assert(lhs =~= u);
}

/// The identity is neutral on the left.
pub proof fn lemma_mul_identity_left(x: Seq<Seq<nat>>, n: nat, w: nat)
    requires
        is_mat(x, n, w),
    ensures
        mat_mul(identity(n), x, n, w) == x,
{
    lemma_modulus_facts();
    let lhs = mat_mul(identity(n), x, n, w);
    assert forall|r: int| 0 <= r < n implies #[trigger] lhs[r] =~= x[r] by {
        assert forall|c: int| 0 <= c < w implies lhs[r][c] == x[r][c] by {
            let f = |k: int| (identity(n)[r][k] * x[k][c]) as int;
            assert forall|k: int| 0 <= k < n && k != r implies #[trigger] f(k) == 0 by {}
            lemma_sum_single(n, f, r);
            assert(identity(n)[r][r] == 1);
            assert(f(r) == x[r][c]);
            lemma_small_mod(x[r][c], modulus_p());
            assert(lhs[r][c] == (dot(identity(n)[r], x, c, n) % (modulus_p() as int)) as nat);
        }
    }
    assert(lhs =~= x);
}

/// The product of matrices is a matrix.
pub proof fn lemma_mul_is_mat(a: Seq<Seq<nat>>, b: Seq<Seq<nat>>, h: nat, n: nat, w: nat)
    requires
        a.len() == h,
    ensures
        is_mat(mat_mul(a, b, n, w), h, w),
{
    lemma_modulus_facts();
    let c = mat_mul(a, b, n, w);
    assert forall|i: int, j: int| 0 <= i < h && 0 <= j < w implies #[trigger] c[i][j] < modulus_p() by {
        lemma_mod_bound(dot(a[i], b, j, n), modulus_p() as int);
    }
}

/// The product of matrices is associative.
pub proof fn lemma_mul_assoc(a: Seq<Seq<nat>>, b: Seq<Seq<nat>>, c: Seq<Seq<nat>>, h: nat, n: nat, m: nat, w: nat)
    requires
        is_mat(a, h, n),
        is_mat(b, n, m),
        is_mat(c, m, w),
    ensures
        mat_mul(mat_mul(a, b, n, m), c, m, w) == mat_mul(a, mat_mul(b, c, m, w), n, w),
{
    lemma_modulus_facts();
    let p = modulus_p() as int;
    let ab = mat_mul(a, b, n, m);
    let bc = mat_mul(b, c, m, w);
    let lhs = mat_mul(ab, c, m, w);
    let rhs = mat_mul(a, bc, n, w);
    assert forall|r: int| 0 <= r < h implies #[trigger] lhs[r] =~= rhs[r] by {
        assert forall|l: int| 0 <= l < w implies lhs[r][l] == rhs[r][l] by {
            let t = |k: int, j: int| (a[r][j] * b[j][k] * c[k][l]) as int;
            // left: sum over k of (sum over j of a b) c
            let fl = |k: int| (ab[r][k] * c[k][l]) as int;
            let gl = |k: int| sum(n, |j: int| t(k, j));
            assert forall|k: int| 0 <= k < m implies congruent(#[trigger] fl(k), gl(k)) by {
                let s = dot(a[r], b, k, n);
                lemma_cong_refl_mod(s);
                lemma_cong_mul(ab[r][k] as int, s, c[k][l] as int);
                let inner = |j: int| (a[r][j] * b[j][k]) as int;
                let tk = |j: int| t(k, j);
                assert forall|j: int| 0 <= j < n implies #[trigger] tk(j) == c[k][l] * inner(j) + 0 * inner(j) by {
                    let x = a[r][j] as int;
                    let y = b[j][k] as int;
                    let z = c[k][l] as int;
                    assert(x * y * z == z * (x * y)) by (nonlinear_arith);
                }
                lemma_sum_linear(n, tk, inner, inner, c[k][l] as int, 0);
                assert(s * c[k][l] == c[k][l] * s) by (nonlinear_arith);
                lemma_sum_ext(n, tk, |j: int| t(k, j));
            }
            lemma_sum_cong(m, fl, gl);
            // right: sum over j of a (sum over k of b c)
            let fr = |j: int| (a[r][j] * bc[j][l]) as int;
            let gr = |j: int| sum(m, |k: int| t(k, j));
            assert forall|j: int| 0 <= j < n implies congruent(#[trigger] fr(j), gr(j)) by {
                let s = dot(b[j], c, l, m);
                lemma_cong_refl_mod(s);
                lemma_cong_mul(bc[j][l] as int, s, a[r][j] as int);
                let inner = |k: int| (b[j][k] * c[k][l]) as int;
                let tj = |k: int| t(k, j);
                assert forall|k: int| 0 <= k < m implies #[trigger] tj(k) == a[r][j] * inner(k) + 0 * inner(k) by {
                    let x = a[r][j] as int;
                    let y = b[j][k] as int;
                    let z = c[k][l] as int;
                    assert(x * y * z == x * (y * z)) by (nonlinear_arith);
                }
                lemma_sum_linear(m, tj, inner, inner, a[r][j] as int, 0);
                lemma_sum_ext(m, tj, |k: int| t(k, j));
            }
            lemma_sum_cong(n, fr, gr);
            lemma_sum_swap(m, n, t);
            assert(sum(m, gl) == sum(m, |k: int| sum(n, |j: int| t(k, j))));
            assert(sum(n, gr) == sum(n, |j: int| sum(m, |k: int| t(k, j))));
            lemma_mod_bound(sum(m, fl), p);
            lemma_mod_bound(sum(n, fr), p);
            lemma_cong_refl_mod(sum(m, fl));
            lemma_cong_refl_mod(sum(n, fr));
            lemma_cong_canonical(lhs[r][l], rhs[r][l]);
        }
    }
    assert(lhs =~= rhs);
}

/// Multiplying by zeros gives zeros.
pub proof fn lemma_mul_zeros(u: Seq<Seq<nat>>, h: nat, n: nat, w: nat)
    ensures
        mat_mul(u, zeros(n, w), n, w) == zeros(u.len(), w),
{
    lemma_modulus_facts();
    let lhs = mat_mul(u, zeros(n, w), n, w);
    assert forall|r: int| 0 <= r < u.len() implies #[trigger] lhs[r] =~= zeros(u.len(), w)[r] by {
        assert forall|c: int| 0 <= c < w implies lhs[r][c] == 0 by {
            let f = |k: int| (u[r][k] * zeros(n, w)[k][c]) as int;
            assert forall|k: int| 0 <= k < n implies #[trigger] f(k) == 0 by {
                assert(zeros(n, w)[k][c] == 0);
                assert(u[r][k] * 0 == 0);
            }
            crate::algebra::sums::lemma_sum_zero(n, f);
        }
    }
    assert(lhs =~= zeros(u.len(), w));
}

/// The vector that shows the dependency of column `i` of a matrix whose first
/// `i` columns are those of the identity and whose column `i` vanishes below
/// the diagonal.
pub open spec fn reduced_kernel_vector(a: Seq<Seq<nat>>, n: nat, i: nat) -> Seq<nat> {
    Seq::new(n, |t: int| if t < i { fneg(a[t][i as int]) } else if t == i { 1nat } else { 0nat })
}

/// A matrix whose first `i` columns are those of the identity and whose
/// column `i` vanishes from row `i` on has a kernel vector.
pub proof fn lemma_reduced_kernel(a: Seq<Seq<nat>>, n: nat, i: nat)
    requires
        is_mat(a, n, n),
        i < n,
        forall|r: int, c: int| 0 <= r < n && 0 <= c < i ==> #[trigger] a[r][c] == (if r == c { 1nat } else { 0nat }),
        forall|r: int| i <= r < n ==> #[trigger] a[r][i as int] == 0,
    ensures
        is_kernel_witness(a, n, reduced_kernel_vector(a, n, i), i),
{
    lemma_modulus_facts();
    let p = modulus_p() as int;
    let v = reduced_kernel_vector(a, n, i);
    let cv = col_vec(v);
    let lhs = mat_mul(a, cv, n, 1);
    assert forall|t: int| 0 <= t < n implies #[trigger] v[t] < modulus_p() by {}
    assert forall|k: int| 0 <= k < n implies #[trigger] cv[k][0] == v[k] by {
        assert(cv[k] == seq![v[k]]);
    }
    assert forall|r: int| 0 <= r < n implies #[trigger] lhs[r] =~= zeros(n, 1)[r] by {
        let f = |k: int| (a[r][k] * cv[k][0]) as int;
        let z = |k: int| 0int;
        if r < i {
            assert forall|k: int| 0 <= k < n && k != r && k != i as int implies congruent(#[trigger] f(k), z(k)) by {
                assert(cv[k][0] == v[k]);
                if k < i {
                    assert(a[r][k] == 0);
                } else {
                    assert(v[k] == 0);
                    assert(a[r][k] * 0 == 0);
                }
            }
            assert(cv[r][0] == v[r]);
            assert(cv[i as int][0] == v[i as int]);
            assert(a[r][r] == 1);
            let x = a[r][i as int] as int;
            assert(f(r) == fneg(a[r][i as int]));
            assert(f(i as int) == x);
            lemma_cong_refl_mod(0 - x);
            lemma_cong_add(f(r), 0 - x, f(i as int), x);
            crate::algebra::sums::lemma_sum_zero(n, z);
            lemma_sum_cong_two(n, f, z, r, i as int);
        } else {
            assert forall|k: int| 0 <= k < n implies #[trigger] f(k) == 0 by {
                assert(cv[k][0] == v[k]);
                if k < i {
                    assert(a[r][k] == 0);
                    assert(0 * v[k] == 0);
                } else if k > i {
                    assert(v[k] == 0);
                    assert(a[r][k] * 0 == 0);
                } else {
                    assert(a[r][i as int] == 0);
                    assert(0 * v[k] == 0);
                }
            }
            crate::algebra::sums::lemma_sum_zero(n, f);
        }
        assert(lhs[r][0] == 0);
    }
    assert(lhs =~= zeros(n, 1));
}

/// A kernel vector of `a` is a kernel vector of any `u * a`.
pub proof fn lemma_kernel_transfer(u: Seq<Seq<nat>>, a: Seq<Seq<nat>>, n: nat, v: Seq<nat>, i: nat)
    requires
        is_mat(u, n, n),
        is_mat(a, n, n),
        is_kernel_witness(a, n, v, i),
    ensures
        is_kernel_witness(mat_mul(u, a, n, n), n, v, i),
{
    let cv = col_vec(v);
    assert(is_mat(cv, n, 1)) by {
        assert forall|r: int| 0 <= r < n implies #[trigger] cv[r].len() == 1 by {}
        assert forall|r: int, c: int| 0 <= r < n && 0 <= c < 1 implies #[trigger] cv[r][c] < modulus_p() by {}
    }
    lemma_mul_assoc(u, a, cv, n, n, n, 1);
    lemma_mul_zeros(u, n, n, 1);
}

/// The rows of `a`, one after the other.
pub open spec fn flatten_rows(a: Seq<Seq<nat>>) -> Seq<nat>
    decreases a.len(),
{
    if a.len() == 0 {
        Seq::empty()
    } else {
        flatten_rows(a.drop_last()) + a.last()
    }
}

/// When all the rows have length `w`, entry `(i, j)` is found at `i * w + j`
/// in the flattened rows.
pub proof fn lemma_flatten_rows(a: Seq<Seq<nat>>, w: nat)
    requires
        forall|i: int| 0 <= i < a.len() ==> #[trigger] a[i].len() == w,
    ensures
        flatten_rows(a).len() == a.len() * w,
        forall|i: int, j: int| 0 <= i < a.len() && 0 <= j < w ==> #[trigger] flatten_rows(a)[i * w + j] == a[i][j],
    decreases a.len(),
{
    if a.len() > 0 {
        let n = a.len();
        let b = a.drop_last();
        lemma_flatten_rows(b, w);
        assert((n - 1) * w + w == n * w) by (nonlinear_arith);
        assert forall|i: int, j: int| 0 <= i < n && 0 <= j < w implies #[trigger] flatten_rows(a)[i * w + j] == a[i][j] by {
            if i < n - 1 {
                assert(i * w + j < (n - 1) * w) by (nonlinear_arith)
                    requires
                        0 <= i < n - 1,
                        0 <= j < w,
                {
                    assert(i * w + j < i * w + w);
                    assert(i * w + w == (i + 1) * w);
                    assert((i + 1) * w <= (n - 1) * w);
                }
                assert(0 <= i * w) by (nonlinear_arith)
                    requires
                        0 <= i,
                ;
                assert(b[i] == a[i]);
            } else {
                assert(i * w == (n - 1) * w);
            }
        }
    }
}

} // verus!
