//! Finite sums of integers and congruences modulo $p$, the arithmetic on
//! which the matrix laws rest.
use vstd::prelude::*;
use vstd::arithmetic::div_mod::*;
use vstd::arithmetic::mul::*;
use crate::field::{congruent, fmul, finv, modulus_p, lemma_modulus_facts};

verus! {

/// $\sum_{k = 0}^{n - 1} f(k)$.
pub open spec fn sum(n: nat, f: spec_fn(int) -> int) -> int
    decreases n,
{
    if n == 0 { 0 } else { sum((n - 1) as nat, f) + f(n - 1) }
}

pub proof fn lemma_cong_refl_mod(a: int)
    ensures
        congruent(a % (modulus_p() as int), a),
        congruent(a, a % (modulus_p() as int)),
{
    lemma_modulus_facts();
    lemma_mod_twice(a, modulus_p() as int);
}

pub proof fn lemma_cong_add(a: int, b: int, c: int, d: int)
    requires
        congruent(a, b),
        congruent(c, d),
    ensures
        congruent(a + c, b + d),
{
    lemma_modulus_facts();
    let p = modulus_p() as int;
    lemma_add_mod_noop(a, c, p);
    lemma_add_mod_noop(b, d, p);
}

pub proof fn lemma_cong_neg(a: int, b: int)
    requires
        congruent(a, b),
    ensures
        congruent(-a, -b),
{
    lemma_modulus_facts();
    let p = modulus_p() as int;
    lemma_sub_mod_noop(0, a, p);
    lemma_sub_mod_noop(0, b, p);
}

pub proof fn lemma_cong_mul(a: int, b: int, c: int)
    requires
        congruent(a, b),
    ensures
        congruent(a * c, b * c),
        congruent(c * a, c * b),
{
    lemma_modulus_facts();
    let p = modulus_p() as int;
    lemma_mul_mod_noop_left(a, c, p);
    lemma_mul_mod_noop_left(b, c, p);
    lemma_mul_is_commutative(a, c);
    lemma_mul_is_commutative(b, c);
}

pub proof fn lemma_cong_trans(a: int, b: int, c: int)
    requires
        congruent(a, b),
        congruent(b, c),
    ensures
        congruent(a, c),
{
}

/// Inverses are unique: any canonical inverse of `a` is `finv(a)`.
pub proof fn lemma_inverse_unique(a: nat, x: nat)
    requires
        x < modulus_p(),
        fmul(a, x) == 1,
    ensures
        finv(a) == x,
        fmul(a, finv(a)) == 1,
        finv(a) < modulus_p(),
{
    lemma_modulus_facts();
    let y = finv(a);
    assert(y < modulus_p() && fmul(a, y) == 1);
    let p = modulus_p() as int;
    lemma_small_mod(1, modulus_p());
    // a x = 1 and a y = 1, so y = y (a x) = x (a y) = x
    lemma_cong_mul((a * x) as int, 1, y as int);
    lemma_cong_mul((a * y) as int, 1, x as int);
    assert((y * (a * x)) == x * (a * y)) by (nonlinear_arith);
    lemma_small_mod(x, modulus_p());
    lemma_small_mod(y, modulus_p());
}

pub proof fn lemma_sum_ext(n: nat, f: spec_fn(int) -> int, g: spec_fn(int) -> int)
    requires
        forall|k: int| 0 <= k < n ==> #[trigger] f(k) == g(k),
    ensures
        sum(n, f) == sum(n, g),
    decreases n,
{
    if n > 0 {
        lemma_sum_ext((n - 1) as nat, f, g);
    }
}

pub proof fn lemma_sum_cong(n: nat, f: spec_fn(int) -> int, g: spec_fn(int) -> int)
    requires
        forall|k: int| 0 <= k < n ==> congruent(#[trigger] f(k), g(k)),
    ensures
        congruent(sum(n, f), sum(n, g)),
    decreases n,
{
    if n > 0 {
        lemma_sum_cong((n - 1) as nat, f, g);
        lemma_cong_add(sum((n - 1) as nat, f), sum((n - 1) as nat, g), f(n - 1), g(n - 1));
    }
}

/// Sums are linear.
pub proof fn lemma_sum_linear(
    n: nat,
    f: spec_fn(int) -> int,
    g: spec_fn(int) -> int,
    h: spec_fn(int) -> int,
    a: int,
    b: int,
)
    requires
        forall|k: int| 0 <= k < n ==> #[trigger] f(k) == a * g(k) + b * h(k),
    ensures
        sum(n, f) == a * sum(n, g) + b * sum(n, h),
    decreases n,
{
    if n > 0 {
        let m = (n - 1) as nat;
        lemma_sum_linear(m, f, g, h, a, b);
        assert(a * (sum(m, g) + g(m as int)) == a * sum(m, g) + a * g(m as int)) by (nonlinear_arith);
        assert(b * (sum(m, h) + h(m as int)) == b * sum(m, h) + b * h(m as int)) by (nonlinear_arith);
    }
}

/// A sum whose terms all vanish but one.
pub proof fn lemma_sum_single(n: nat, f: spec_fn(int) -> int, i: int)
    requires
        0 <= i < n,
        forall|k: int| 0 <= k < n && k != i ==> #[trigger] f(k) == 0,
    ensures
        sum(n, f) == f(i),
    decreases n,
{
    if n > 0 {
        if i < n - 1 {
            lemma_sum_single((n - 1) as nat, f, i);
        } else {
            lemma_sum_zero((n - 1) as nat, f);
        }
    }
}

/// A sum whose terms all vanish.
pub proof fn lemma_sum_zero(n: nat, f: spec_fn(int) -> int)
    requires
        forall|k: int| 0 <= k < n ==> #[trigger] f(k) == 0,
    ensures
        sum(n, f) == 0,
    decreases n,
{
    if n > 0 {
        lemma_sum_zero((n - 1) as nat, f);
    }
}

/// Two sums whose terms are congruent but at two places, where the two terms
/// together are congruent, are congruent.
pub proof fn lemma_sum_cong_two(n: nat, f: spec_fn(int) -> int, g: spec_fn(int) -> int, i: int, k: int)
    requires
        0 <= i < n,
        0 <= k < n,
        i != k,
        forall|j: int| 0 <= j < n && j != i && j != k ==> congruent(#[trigger] f(j), g(j)),
        congruent(f(i) + f(k), g(i) + g(k)),
    ensures
        congruent(sum(n, f), sum(n, g)),
{
    let f2 = |j: int| if j == i { f(i) + f(k) } else if j == k { 0 } else { f(j) };
    let g2 = |j: int| if j == i { g(i) + g(k) } else if j == k { 0 } else { g(j) };
    let fi = |j: int| if j == i { f(k) } else if j == k { 0 - f(k) } else { 0 };
    let gi = |j: int| if j == i { g(k) } else if j == k { 0 - g(k) } else { 0 };
    let zf = |j: int| if j == i { fi(i) } else { 0 };
    lemma_sum_linear(n, f2, f, fi, 1, 1);
    lemma_sum_linear(n, g2, g, gi, 1, 1);
    lemma_sum_zero_pair(n, f(k), i, k);
    lemma_sum_zero_pair(n, g(k), i, k);
    lemma_sum_ext(n, fi, |j: int| if j == i { f(k) } else if j == k { 0 - f(k) } else { 0 });
    lemma_sum_ext(n, gi, |j: int| if j == i { g(k) } else if j == k { 0 - g(k) } else { 0 });
    assert forall|j: int| 0 <= j < n implies congruent(#[trigger] f2(j), g2(j)) by {}
    lemma_sum_cong(n, f2, g2);
}

proof fn lemma_sum_zero_pair(n: nat, c: int, i: int, k: int)
    requires
        0 <= i < n,
        0 <= k < n,
        i != k,
    ensures
        sum(n, |j: int| if j == i { c } else if j == k { 0 - c } else { 0 }) == 0,
    decreases n,
{
    let f = |j: int| if j == i { c } else if j == k { 0 - c } else { 0 };
    let m = (n - 1) as nat;
    if i == m {
        lemma_sum_single(m, f, k);
    } else if k == m {
        lemma_sum_single(m, f, i);
    } else {
        lemma_sum_zero_pair(m, c, i, k);
    }
}

/// Exchanging the order of a double sum.
pub proof fn lemma_sum_swap(n: nat, m: nat, f: spec_fn(int, int) -> int)
    ensures
        sum(n, |i: int| sum(m, |j: int| f(i, j))) == sum(m, |j: int| sum(n, |i: int| f(i, j))),
    decreases n,
{
    if n > 0 {
        let n1 = (n - 1) as nat;
        lemma_sum_swap(n1, m, f);
        let inner_n = |j: int| sum(n, |i: int| f(i, j));
        let inner_n1 = |j: int| sum(n1, |i: int| f(i, j));
        let last = |j: int| f(n1 as int, j);
        assert forall|j: int| 0 <= j < m implies #[trigger] inner_n(j) == 1 * inner_n1(j) + 1 * last(j) by {}
        lemma_sum_linear(m, inner_n, inner_n1, last, 1, 1);
        let outer = |i: int| sum(m, |j: int| f(i, j));
        assert(sum(n, outer) == sum(n1, outer) + outer(n1 as int));
        assert(outer(n1 as int) == sum(m, last)) by {
            lemma_sum_ext(m, |j: int| f(n1 as int, j), last);
        }
        assert(sum(n1, outer) == sum(m, inner_n1));
        assert(sum(m, inner_n) == sum(n, outer));
        assert(outer =~= (|i: int| sum(m, |j: int| f(i, j))));
        assert(inner_n =~= (|j: int| sum(n, |i: int| f(i, j))));
    } else {
        lemma_sum_zero(m, |j: int| sum(n, |i: int| f(i, j)));
    }
}

} // verus!
