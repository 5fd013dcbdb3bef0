//! Manipulate elements of the finite field $\mathbb{F}_p$: turn bytes into
//! field elements and back, powers and scalar products.
use vstd::prelude::*;
use vstd::arithmetic::div_mod::*;
pub mod linalg;
pub mod poly;
pub mod render;
pub mod mat;
pub mod sums;
pub mod vector;
use crate::field::{Scalar, all_wf, values, le_value, le_bytes, pow256, modulus_p, fpow, fmul, congruent, lemma_modulus_facts};
use crate::algebra::poly::{Polynomial, coeff};
use crate::algebra::sums::{sum, lemma_cong_refl_mod, lemma_cong_add, lemma_cong_trans};
use crate::curve::{
    G1, G2, Gt, g1_combination, g2_combination, pairing_sum, ark_g1_identity, ark_g1_add, ark_g1_mul, ark_g2_identity,
    ark_g2_add, ark_g2_mul, ark_gt_identity, ark_gt_add, ark_pairing,
};

verus! {

/// The number of bytes packed into one field element: $(255 - 1) / 8$, so
/// that any chunk of bytes is smaller than $p$.
pub const BYTES_PER_ELEMENT: usize = 31;

/// The number of chunks of `BYTES_PER_ELEMENT` bytes that cover `len` bytes.
pub open spec fn nb_chunks(len: nat) -> nat {
    (len + 30) / 31
}

/// The `i`-th chunk of `bytes`, the last one possibly shorter.
pub open spec fn chunk(bytes: Seq<u8>, i: int) -> Seq<u8> {
    let end = if 31 * i + 31 <= bytes.len() { 31 * i + 31 } else { bytes.len() as int };
    bytes.subrange(31 * i, end)
}

/// The smallest multiple of `m` that is at least `n`.
pub open spec fn padded_len(n: nat, m: nat) -> nat {
    if n % m == 0 { n } else { (n / m + 1) * m }
}

/// The field elements that encode `bytes`: one per chunk, then as many ones
/// as needed to reach a multiple of `m` elements.
pub open spec fn split_spec(bytes: Seq<u8>, m: nat) -> Seq<nat> {
    Seq::new(
        padded_len(nb_chunks(bytes.len()), m),
        |i: int|
            if i < nb_chunks(bytes.len()) {
                le_value(chunk(bytes, i)) % modulus_p()
            } else {
                1nat
            },
    )
}

/// The bytes of a sequence of field elements: the 31 low little-endian bytes
/// of each, one after the other.
pub open spec fn merge_spec(vals: Seq<nat>) -> Seq<u8>
    decreases vals.len(),
{
    if vals.len() == 0 {
        Seq::empty()
    } else {
        merge_spec(vals.drop_last()) + le_bytes(vals.last(), 31)
    }
}

pub proof fn lemma_padded_len(n: nat, m: nat)
    requires
        m > 0,
    ensures
        padded_len(n, m) % m == 0,
        n <= padded_len(n, m),
        padded_len(n, m) < n + m,
{
    lemma_fundamental_div_mod(n as int, m as int);
    if n % m != 0 {
        let q = n / m;
        assert((q + 1) * m == q * m + m) by (nonlinear_arith);
        assert(m * q == q * m) by (nonlinear_arith);
        lemma_mod_multiples_basic((q + 1) as int, m as int);
    }
}

/// The elements that split `len` bytes fit in memory when `len + m` does.
pub proof fn lemma_split_fits(len: nat, m: nat)
    requires
        m > 0,
        len + m <= usize::MAX,
    ensures
        padded_len(nb_chunks(len), m) <= usize::MAX,
{
    lemma_padded_len(nb_chunks(len), m);
    assert(nb_chunks(len) <= len + 1) by {
        vstd::arithmetic::div_mod::lemma_div_is_ordered((len + 30) as int, (31 * len + 31) as int, 31);
        vstd::arithmetic::div_mod::lemma_div_multiples_vanish((len + 1) as int, 31);
    }
}

/// Splits a sequence of bytes into field elements, by chunks of
/// [`BYTES_PER_ELEMENT`] little-endian bytes; the number of elements is
/// padded with ones up to a multiple of `modulus`.
pub fn split_data_into_field_elements(bytes: &[u8], modulus: usize) -> (r: Vec<Scalar>)
    requires
        modulus > 0,
        padded_len(nb_chunks(bytes@.len()), modulus as nat) <= usize::MAX,
    ensures
        values(r@) == split_spec(bytes@, modulus as nat),
        all_wf(r@),
        r@.len() % (modulus as nat) == 0,
{
    let len = bytes.len();
    let nb: usize = len / BYTES_PER_ELEMENT + if len % BYTES_PER_ELEMENT != 0 { 1 } else { 0 };
    assert(nb == nb_chunks(len as nat));
    let mut elements: Vec<Scalar> = Vec::new();
    let mut i: usize = 0;
    while i < nb
        invariant
            nb == nb_chunks(len as nat),
            len == bytes@.len(),
            i <= nb,
            elements@.len() == i,
            all_wf(elements@),
            forall|t: int| 0 <= t < i ==> #[trigger] elements@[t]@ == le_value(chunk(bytes@, t)) % modulus_p(),
        decreases nb - i,
    {
        let start = BYTES_PER_ELEMENT * i;
        let end = if len - start < BYTES_PER_ELEMENT { len } else { start + BYTES_PER_ELEMENT };
        let piece = vstd::slice::slice_subrange(bytes, start, end);
        let e = Scalar::from_le_bytes_mod_order(piece);
        elements.push(e);
        i = i + 1;
    }
    proof { lemma_padded_len(nb as nat, modulus as nat); }
    if elements.len() % modulus != 0 {
        let target = (elements.len() / modulus + 1) * modulus;
        while elements.len() < target
            invariant
                target == padded_len(nb as nat, modulus as nat),
                nb <= elements@.len() <= target,
                all_wf(elements@),
                forall|t: int| 0 <= t < nb ==> #[trigger] elements@[t]@ == le_value(chunk(bytes@, t)) % modulus_p(),
                forall|t: int| nb <= t < elements@.len() ==> #[trigger] elements@[t]@ == 1,
            decreases target - elements@.len(),
        {
            let one = Scalar::one();
            proof { lemma_modulus_facts(); }
            elements.push(one);
        }
    }
    proof {
        assert(values(elements@) =~= split_spec(bytes@, modulus as nat));
    }
    elements
}

/// Merges field elements back into bytes: the 32 little-endian bytes of each
/// element without the last one.
///
/// This is the inverse of [`split_data_into_field_elements`], see
/// [`lemma_split_merge`].
pub fn merge_elements_into_bytes(elements: &[Scalar]) -> (r: Vec<u8>)
    requires
        all_wf(elements@),
    ensures
        r@ == merge_spec(values(elements@)),
{
    let mut bytes: Vec<u8> = Vec::new();
    let mut i: usize = 0;
    while i < elements.len()
        invariant
            i <= elements@.len(),
            all_wf(elements@),
            bytes@ == merge_spec(values(elements@.subrange(0, i as int))),
        decreases elements@.len() - i,
    {
        let mut b = elements[i].to_bytes_le();
        let ghost full = b@;
        b.pop();
        let ghost popped = b@;
        bytes.append(&mut b);
        proof {
            let vs = values(elements@.subrange(0, i + 1));
            assert(vs.drop_last() =~= values(elements@.subrange(0, i as int)));
            assert(vs.last() == elements@[i as int]@);
            assert(popped =~= full.drop_last());
            assert(popped =~= le_bytes(vs.last(), 31));
        }
        i = i + 1;
    }
    proof {
        assert(elements@.subrange(0, elements@.len() as int) =~= elements@);
    }
    bytes
}

proof fn lemma_merge_index(vals: Seq<nat>)
    ensures
        merge_spec(vals).len() == 31 * vals.len(),
        forall|i: int, j: int|
            0 <= i < vals.len() && 0 <= j < 31 ==> #[trigger] merge_spec(vals)[31 * i + j]
                == le_bytes(vals[i], 31)[j],
    decreases vals.len(),
{
    if vals.len() > 0 {
        let prev = vals.drop_last();
        lemma_merge_index(prev);
        assert forall|i: int, j: int|
            0 <= i < vals.len() && 0 <= j < 31 implies #[trigger] merge_spec(vals)[31 * i + j]
                == le_bytes(vals[i], 31)[j] by {
            if i < vals.len() - 1 {
                assert(merge_spec(prev)[31 * i + j] == le_bytes(prev[i], 31)[j]);
            }
        }
    }
}

proof fn lemma_le_value_bound(c: Seq<u8>)
    ensures
        le_value(c) < pow256(c.len()),
    decreases c.len(),
{
    if c.len() > 0 {
        lemma_le_value_bound(c.drop_first());
    }
}

proof fn lemma_pow256_monotone(a: nat, b: nat)
    requires
        a <= b,
    ensures
        pow256(a) <= pow256(b),
        pow256(a) > 0,
    decreases b,
{
    if b > a {
        lemma_pow256_monotone(a, (b - 1) as nat);
    } else if a > 0 {
        lemma_pow256_monotone((a - 1) as nat, (a - 1) as nat);
    }
}

/// The digits of the integer written by `c` are the bytes of `c`.
proof fn lemma_le_digit(c: Seq<u8>, j: nat)
    requires
        j < c.len(),
    ensures
        (le_value(c) / pow256(j)) % 256 == c[j as int],
    decreases j,
{
    let rest = le_value(c.drop_first());
    assert(le_value(c) == rest * 256 + c[0]);
    lemma_fundamental_div_mod_converse(le_value(c) as int, 256, rest as int, c[0] as int);
    if j > 0 {
        lemma_le_digit(c.drop_first(), (j - 1) as nat);
        lemma_pow256_monotone((j - 1) as nat, (j - 1) as nat);
        lemma_div_denominator(le_value(c) as int, 256, pow256((j - 1) as nat) as int);
        assert(pow256(j) == 256 * pow256((j - 1) as nat));
        assert(le_value(c) / pow256(j) == rest / pow256((j - 1) as nat));
        assert(c.drop_first()[j - 1] == c[j as int]);
    } else {
        assert(pow256(0) == 1);
        assert(le_value(c) / 1 == le_value(c));
    }
}

/// Merging the elements that split some bytes gives the bytes back, followed
/// by padding.
pub proof fn lemma_split_merge(bytes: Seq<u8>, m: nat)
    requires
        m > 0,
    ensures
        merge_spec(split_spec(bytes, m)).len() >= bytes.len(),
        merge_spec(split_spec(bytes, m)).subrange(0, bytes.len() as int) == bytes,
{
    let vals = split_spec(bytes, m);
    let nb = nb_chunks(bytes.len());
    lemma_padded_len(nb, m);
    lemma_merge_index(vals);
    lemma_modulus_facts();
    assert forall|t: int| 0 <= t < bytes.len() implies merge_spec(vals)[t] == bytes[t] by {
        let i = t / 31;
        let j = t % 31;
        assert(t == 31 * i + j);
        assert(i < nb);
        let c = chunk(bytes, i);
        assert(j < c.len());
        assert(c[j] == bytes[t]);
        lemma_le_value_bound(c);
        lemma_pow256_monotone(c.len(), 31);
        lemma_small_mod(le_value(c), modulus_p());
        lemma_le_digit(c, j as nat);
        assert(merge_spec(vals)[31 * i + j] == le_bytes(vals[i], 31)[j]);
    }
    assert(merge_spec(vals).subrange(0, bytes.len() as int) =~= bytes);
}

/// The first powers of `step`: $1, s, s^2, \ldots, s^{n - 1}$, none when
/// $n = 0$.
pub fn powers_of(step: Scalar, nb_powers: usize) -> (r: Vec<Scalar>)
    requires
        step.wf(),
    ensures
        all_wf(r@),
        r@.len() == nb_powers,
        forall|j: int| 0 <= j < r@.len() ==> #[trigger] r@[j]@ == fpow(step@, j as nat),
{
    proof {
        lemma_modulus_facts();
        vstd::arithmetic::div_mod::lemma_small_mod(1, modulus_p());
    }
    let mut powers: Vec<Scalar> = Vec::new();
    if nb_powers == 0 {
        return powers;
    }
    powers.push(Scalar::one());
    let mut j: usize = 1;
    while j < nb_powers
        invariant
            step.wf(),
            1 <= j <= nb_powers,
            powers@.len() == j,
            all_wf(powers@),
            forall|t: int| 0 <= t < j ==> #[trigger] powers@[t]@ == fpow(step@, t as nat),
        decreases nb_powers - j,
    {
        let next = powers[j - 1].mul(&step);
        powers.push(next);
        j = j + 1;
    }
    powers
}

/// $\sum_i a_i b_i$ in $\mathbb{F}_p$, over the common length of the two
/// sequences.
pub open spec fn scalar_product_spec(a: Seq<nat>, b: Seq<nat>) -> nat {
    let n = if a.len() <= b.len() { a.len() } else { b.len() };
    (sum(n, |i: int| (a[i] * b[i]) as int) % (modulus_p() as int)) as nat
}

/// The scalar product of two vectors of field elements, over their common
/// length.
pub fn scalar_product(lhs: &[Scalar], rhs: &[Scalar]) -> (r: Scalar)
    requires
        all_wf(lhs@),
        all_wf(rhs@),
    ensures
        r.wf(),
        r@ == scalar_product_spec(values(lhs@), values(rhs@)),
{
    proof {
        lemma_modulus_facts();
    }
    let ghost a = values(lhs@);
    let ghost b = values(rhs@);
    let ghost f = |i: int| (a[i] * b[i]) as int;
    let n = if lhs.len() <= rhs.len() { lhs.len() } else { rhs.len() };
    let mut acc = Scalar::zero();
    let mut i: usize = 0;
    while i < n
        invariant
            all_wf(lhs@),
            all_wf(rhs@),
            a == values(lhs@),
            b == values(rhs@),
            f == (|i: int| (a[i] * b[i]) as int),
            n <= lhs@.len(),
            n <= rhs@.len(),
            i <= n,
            acc.wf(),
            congruent(acc@ as int, sum(i as nat, f)),
        decreases n - i,
    {
        let t = lhs[i].mul(&rhs[i]);
        let ghost prev = acc@;
        acc = acc.add(&t);
        proof {
            lemma_modulus_facts();
            let p = modulus_p() as int;
            assert(sum((i + 1) as nat, f) == sum(i as nat, f) + f(i as int));
            lemma_cong_refl_mod(f(i as int));
            lemma_cong_add(prev as int, sum(i as nat, f), t@ as int, f(i as int));
            lemma_cong_refl_mod((prev + t@) as int);
            lemma_cong_trans(acc@ as int, (prev + t@) as int, sum(i as nat, f) + f(i as int));
        }
        i = i + 1;
    }
    proof {
        vstd::arithmetic::div_mod::lemma_small_mod(acc@, modulus_p());
    }
    acc
}

/// $\sum_i s_i P_i$, for scalars $s_i$ and polynomials $P_i$, over the
/// common length of the two sequences.
pub fn scalar_product_polynomial(lhs: &[Scalar], rhs: &[Polynomial]) -> (r: Polynomial)
    requires
        all_wf(lhs@),
        forall|i: int| 0 <= i < rhs@.len() ==> #[trigger] rhs@[i].wf(),
    ensures
        r.wf(),
        forall|j: int| #[trigger] coeff(r@, j) == (sum(
            if lhs@.len() <= rhs@.len() { lhs@.len() as nat } else { rhs@.len() as nat },
            |i: int| (lhs@[i]@ * coeff(rhs@[i]@, j)) as int,
        ) % (modulus_p() as int)) as nat,
{
    proof {
        lemma_modulus_facts();
    }
    let n = if lhs.len() <= rhs.len() { lhs.len() } else { rhs.len() };
    let mut polynomial = Polynomial::zero();
    let mut i: usize = 0;
    while i < n
        invariant
            all_wf(lhs@),
            forall|i: int| 0 <= i < rhs@.len() ==> #[trigger] rhs@[i].wf(),
            n <= lhs@.len(),
            n <= rhs@.len(),
            i <= n,
            polynomial.wf(),
            forall|j: int| #[trigger] coeff(polynomial@, j) == (sum(
                i as nat,
                |t: int| (lhs@[t]@ * coeff(rhs@[t]@, j)) as int,
            ) % (modulus_p() as int)) as nat,
        decreases n - i,
    {
        let scaled = rhs[i].scale(lhs[i]);
        let ghost prev = polynomial@;
        polynomial = polynomial.add(&scaled);
        proof {
            lemma_modulus_facts();
            let p = modulus_p() as int;
            assert forall|j: int| #[trigger] coeff(polynomial@, j) == (sum(
                (i + 1) as nat,
                |t: int| (lhs@[t]@ * coeff(rhs@[t]@, j)) as int,
            ) % p) as nat by {
                let f = |t: int| (lhs@[t]@ * coeff(rhs@[t]@, j)) as int;
                let old_sum = sum(i as nat, f);
                assert(sum((i + 1) as nat, f) == old_sum + f(i as int));
                let c = coeff(rhs@[i as int]@, j);
                let s = lhs@[i as int]@;
                assert(coeff(prev, j) == (old_sum % p) as nat);
                assert(coeff(scaled@, j) == fmul(c, s));
                assert(c * s == s * c) by (nonlinear_arith);
                lemma_cong_refl_mod(old_sum);
                lemma_cong_refl_mod(f(i as int));
                lemma_cong_add(coeff(prev, j) as int, old_sum, coeff(scaled@, j) as int, f(i as int));
                lemma_cong_refl_mod((coeff(prev, j) + coeff(scaled@, j)) as int);
                vstd::arithmetic::div_mod::lemma_mod_bound(old_sum + f(i as int), p);
            }
        }
        i = i + 1;
    }
    polynomial
}

/// The encodings of a sequence of points of $\mathbb{G}_1$.
pub open spec fn g1_views(points: Seq<G1>) -> Seq<Seq<u8>> {
    points.map_values(|p: G1| p@)
}

/// The encodings of a sequence of points of $\mathbb{G}_2$.
pub open spec fn g2_views(points: Seq<G2>) -> Seq<Seq<u8>> {
    points.map_values(|p: G2| p@)
}

/// The common length of two sequences.
pub open spec fn common_len(a: nat, b: nat) -> nat {
    if a <= b { a } else { b }
}

/// $\sum_i s_i P_i$ on $\mathbb{G}_1$, over the common length.
pub fn scalar_product_g1(lhs: &[G1], rhs: &[Scalar]) -> (r: G1)
    requires
        forall|i: int| 0 <= i < lhs@.len() ==> #[trigger] lhs@[i].wf(),
        all_wf(rhs@),
    ensures
        r.wf(),
        r@ == g1_combination(g1_views(lhs@), values(rhs@), common_len(lhs@.len() as nat, rhs@.len() as nat)),
{
    let n = if lhs.len() <= rhs.len() { lhs.len() } else { rhs.len() };
    let mut acc = ark_g1_identity();
    let mut i: usize = 0;
    while i < n
        invariant
            forall|i: int| 0 <= i < lhs@.len() ==> #[trigger] lhs@[i].wf(),
            all_wf(rhs@),
            n <= lhs@.len(),
            n <= rhs@.len(),
            i <= n,
            acc.wf(),
            acc@ == g1_combination(g1_views(lhs@), values(rhs@), i as nat),
        decreases n - i,
    {
        let term = ark_g1_mul(&lhs[i], &rhs[i]);
        acc = ark_g1_add(&acc, &term);
        i = i + 1;
    }
    acc
}

/// $\sum_i s_i Q_i$ on $\mathbb{G}_2$, over the common length.
pub fn scalar_product_g2(lhs: &[G2], rhs: &[Scalar]) -> (r: G2)
    requires
        forall|i: int| 0 <= i < lhs@.len() ==> #[trigger] lhs@[i].wf(),
        all_wf(rhs@),
    ensures
        r.wf(),
        r@ == g2_combination(g2_views(lhs@), values(rhs@), common_len(lhs@.len() as nat, rhs@.len() as nat)),
{
    let n = if lhs.len() <= rhs.len() { lhs.len() } else { rhs.len() };
    let mut acc = ark_g2_identity();
    let mut i: usize = 0;
    while i < n
        invariant
            forall|i: int| 0 <= i < lhs@.len() ==> #[trigger] lhs@[i].wf(),
            all_wf(rhs@),
            n <= lhs@.len(),
            n <= rhs@.len(),
            i <= n,
            acc.wf(),
            acc@ == g2_combination(g2_views(lhs@), values(rhs@), i as nat),
        decreases n - i,
    {
        let term = ark_g2_mul(&lhs[i], &rhs[i]);
        acc = ark_g2_add(&acc, &term);
        i = i + 1;
    }
    acc
}

/// $\sum_i e(P_i, Q_i)$, over the common length.
pub fn scalar_product_pairing(lhs: &[G1], rhs: &[G2]) -> (r: Gt)
    requires
        forall|i: int| 0 <= i < lhs@.len() ==> #[trigger] lhs@[i].wf(),
        forall|i: int| 0 <= i < rhs@.len() ==> #[trigger] rhs@[i].wf(),
    ensures
        r.wf(),
        r@ == pairing_sum(g1_views(lhs@), g2_views(rhs@), common_len(lhs@.len() as nat, rhs@.len() as nat)),
{
    let n = if lhs.len() <= rhs.len() { lhs.len() } else { rhs.len() };
    let mut acc = ark_gt_identity();
    let mut i: usize = 0;
    while i < n
        invariant
            forall|i: int| 0 <= i < lhs@.len() ==> #[trigger] lhs@[i].wf(),
            forall|i: int| 0 <= i < rhs@.len() ==> #[trigger] rhs@[i].wf(),
            n <= lhs@.len(),
            n <= rhs@.len(),
            i <= n,
            acc.wf(),
            acc@ == pairing_sum(g1_views(lhs@), g2_views(rhs@), i as nat),
        decreases n - i,
    {
        let term = ark_pairing(&lhs[i], &rhs[i]);
        acc = ark_gt_add(&acc, &term);
        i = i + 1;
    }
    acc
}

} // verus!
