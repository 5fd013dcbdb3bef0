//! Pieces of the FRI-based commitment scheme: the evaluation of the rows of
//! the data over a domain of roots of unity, the shards made of the columns
//! of these evaluations, their commitment and proofs with FRIDA, and the
//! decoding of the data by interpolation.
use vstd::prelude::*;
use vstd::arithmetic::power2::{is_pow2_exists, pow2};
use ark_bls12_381::Fr;
use ark_ff::{BigInt, FftField, PrimeField};
use dragoonfri::interpolation::interpolate_polynomials;
use dragoonfri::utils::to_evaluations;
use vstd::pervasive::unreached;
use crate::field::{Scalar, all_wf, values, fpow, fmul, modulus_p, lemma_modulus_facts};
use crate::algebra::{lemma_split_fits, split_spec, merge_spec, split_data_into_field_elements, merge_elements_into_bytes, powers_of};
use crate::algebra::poly::eval_spec;
use crate::fec::{Shard, ShardView, sha256, sha256_digest, copy_scalars};

verus! {

/// The columns of a matrix given by its rows: column `i` holds element `i`
/// of each row, for each index `i` of the first row.
pub fn transpose<F: Copy>(v: &[Vec<F>]) -> (r: Vec<Vec<F>>)
    requires
        v@.len() > 0,
        forall|j: int| 0 <= j < v@.len() ==> #[trigger] v@[j]@.len() >= v@[0]@.len(),
    ensures
        r@.len() == v@[0]@.len(),
        forall|i: int| 0 <= i < r@.len() ==> #[trigger] r@[i]@.len() == v@.len(),
        forall|i: int, j: int| 0 <= i < r@.len() && 0 <= j < v@.len() ==> #[trigger] r@[i]@[j] == v@[j]@[i],
{
    let width = v[0].len();
    let mut cols: Vec<Vec<F>> = Vec::new();
    let mut i: usize = 0;
    while i < width
        invariant
            width == v@[0]@.len(),
            forall|j: int| 0 <= j < v@.len() ==> #[trigger] v@[j]@.len() >= v@[0]@.len(),
            i <= width,
            cols@.len() == i,
            forall|a: int| 0 <= a < i ==> #[trigger] cols@[a]@.len() == v@.len(),
            forall|a: int, j: int| 0 <= a < i && 0 <= j < v@.len() ==> #[trigger] cols@[a]@[j] == v@[j]@[a],
        decreases width - i,
    {
        let mut col: Vec<F> = Vec::new();
        let mut j: usize = 0;
        while j < v.len()
            invariant
                width == v@[0]@.len(),
                forall|j: int| 0 <= j < v@.len() ==> #[trigger] v@[j]@.len() >= v@[0]@.len(),
                i < width,
                j <= v@.len(),
                col@.len() == j,
                forall|b: int| 0 <= b < j ==> #[trigger] col@[b] == v@[b]@[i as int],
            decreases v@.len() - j,
        {
            col.push(v[j][i]);
            j = j + 1;
        }
        cols.push(col);
        i = i + 1;
    }
    cols
}

/// `n` has a root of unity of order `n` in the scalar field of BLS12-381,
/// whose multiplicative group has a subgroup of order $2^{32} \cdot 3$:
/// $n = 2^a$ or $n = 3 \cdot 2^a$ with $a \le 32$.
pub open spec fn has_root_of_unity(n: nat) -> bool {
    exists|a: nat| a <= 32 && (n == #[trigger] pow2(a) || n == 3 * pow2(a))
}

/// The root of unity of order `n` that `ark_ff` picks.
pub uninterp spec fn root_of_unity_of(n: nat) -> nat;

/// `ark_ff`'s `FftField::get_root_of_unity` on the scalar field of
/// BLS12-381: a root of unity of order `n`, named [`root_of_unity_of`], when
/// there is one; its first `n` powers are distinct and its `n`-th power is
/// one.
#[verifier::external_body]
fn ark_root_of_unity(n: usize) -> (r: Option<Scalar>)
    ensures
        r is Some <==> has_root_of_unity(n as nat),
        r matches Some(w) ==> {
            &&& w.wf()
            &&& w@ == root_of_unity_of(n as nat)
            &&& fpow(w@, n as nat) == 1
            &&& forall|i: nat, j: nat| i < j < n ==> fpow(w@, i) != fpow(w@, j)
        },
{
    let z = Fr::get_root_of_unity(n as u64)?.into_bigint().0;
    Some(Scalar { l0: z[0], l1: z[1], l2: z[2], l3: z[3] })
}

/// The evaluations that `dragoonfri`'s `to_evaluations` computes from
/// coefficients over the domain of size `n`.
pub uninterp spec fn evaluations_of(coefficients: Seq<nat>, n: nat) -> Seq<nat>;

/// `dragoonfri`'s `to_evaluations`: the `n` evaluations of the polynomial,
/// named [`evaluations_of`]; when the polynomial has at most `n`
/// coefficients, evaluation `i` is its value at the `i`-th power of the root
/// of unity of order `n`.
#[verifier::external_body]
fn fri_to_evaluations(coefficients: &Vec<Scalar>, n: usize) -> (r: Vec<Scalar>)
    requires
        all_wf(coefficients@),
        is_pow2_exists(n as int),
        n <= pow2(32),
    ensures
        r@.len() == n,
        all_wf(r@),
        values(r@) == evaluations_of(values(coefficients@), n as nat),
        coefficients@.len() <= n ==> forall|i: int| 0 <= i < n ==> #[trigger] r@[i]@ == eval_spec(
            values(coefficients@),
            fpow(root_of_unity_of(n as nat), i as nat),
        ),
{
    let fr = |s: &Scalar| Fr::from(BigInt([s.l0, s.l1, s.l2, s.l3]));
    let evaluations = to_evaluations(coefficients.iter().map(fr).collect(), n);
    evaluations.iter().map(|x| x.into_bigint().0).map(|z| Scalar { l0: z[0], l1: z[1], l2: z[2], l3: z[3] }).collect()
}

/// The polynomials that `dragoonfri`'s `interpolate_polynomials` computes
/// from their evaluations at the positions.
pub uninterp spec fn interpolation_of(evaluations: Seq<Seq<nat>>, positions: Seq<nat>) -> Seq<Seq<nat>>;

/// `dragoonfri`'s `interpolate_polynomials`: the coefficients of one
/// polynomial for each sequence of evaluations at the distinct positions,
/// named [`interpolation_of`]; as its documentation says, each polynomial
/// has fewer coefficients than there are positions and takes the given
/// values at the positions.
#[verifier::external_body]
fn fri_interpolate(evaluations: &Vec<Vec<Scalar>>, positions: &Vec<Scalar>) -> (r: Vec<Vec<Scalar>>)
    requires
        is_pow2_exists(positions@.len() as int),
        forall|i: int| 0 <= i < evaluations@.len() ==> #[trigger] evaluations@[i]@.len() == positions@.len(),
        forall|i: int, j: int| 0 <= i < j < positions@.len() ==> #[trigger] positions@[i]@ != #[trigger] positions@[j]@,
        forall|i: int| 0 <= i < evaluations@.len() ==> all_wf(#[trigger] evaluations@[i]@),
        all_wf(positions@),
    ensures
        r@.len() == evaluations@.len(),
        forall|i: int| 0 <= i < r@.len() ==> all_wf(#[trigger] r@[i]@),
        forall|i: int| 0 <= i < r@.len() ==> (#[trigger] r@[i]@).len() <= positions@.len(),
        forall|i: int, j: int| 0 <= i < r@.len() && 0 <= j < positions@.len() ==> eval_spec(
            values(#[trigger] r@[i]@),
            (#[trigger] positions@[j])@,
        ) == evaluations@[i]@[j]@,
        Seq::new(r@.len(), |i: int| values(r@[i]@)) == interpolation_of(
            Seq::new(evaluations@.len(), |i: int| values(evaluations@[i]@)),
            values(positions@),
        ),
{
    let fr = |s: &Scalar| Fr::from(BigInt([s.l0, s.l1, s.l2, s.l3]));
    let rows: Vec<Vec<Fr>> = evaluations.iter().map(|e| e.iter().map(fr).collect()).collect();
    let polynomials = interpolate_polynomials(&rows, &positions.iter().map(fr).collect::<Vec<_>>());
    let to_scalar = |x: &Fr| { let z = x.into_bigint().0; Scalar { l0: z[0], l1: z[1], l2: z[2], l3: z[3] } };
    polynomials.iter().map(|p| p.iter().map(to_scalar).collect()).collect()
}

/// The rows of `k` elements of a sequence whose length is a multiple of `k`.
pub open spec fn rows_of(elements: Seq<nat>, k: nat) -> Seq<Seq<nat>> {
    Seq::new(elements.len() / k, |i: int| elements.subrange(i * k, i * k + k))
}

/// Evaluates the rows of `k` field elements of the data over the domain of
/// the `n` roots of unity of order `n`.
pub fn evaluate(bytes: &[u8], k: usize, n: usize) -> (r: Vec<Vec<Scalar>>)
    requires
        k > 0,
        bytes@.len() + k <= usize::MAX,
        bytes@.len() > 0 ==> is_pow2_exists(n as int) && n <= pow2(32),
    ensures
        ({
            let rows = rows_of(split_spec(bytes@, k as nat), k as nat);
            &&& r@.len() == rows.len()
            &&& forall|i: int| 0 <= i < r@.len() ==> {
                &&& all_wf(#[trigger] r@[i]@)
                &&& values(r@[i]@) == evaluations_of(rows[i], n as nat)
            }
        }),
{
    proof { lemma_split_fits(bytes@.len() as nat, k as nat); }
    let elements = split_data_into_field_elements(bytes, k);
    let ghost rows = rows_of(split_spec(bytes@, k as nat), k as nat);
    let nb_rows = elements.len() / k;
    proof {
        vstd::arithmetic::div_mod::lemma_fundamental_div_mod(elements@.len() as int, k as int);
        if bytes@.len() == 0 {
            assert(crate::algebra::nb_chunks(0) == 0);
            vstd::arithmetic::div_mod::lemma_small_mod(0, k as nat);
            assert(split_spec(bytes@, k as nat).len() == 0);
        }
    }
    let mut evaluations: Vec<Vec<Scalar>> = Vec::new();
    let mut i: usize = 0;
    while i < nb_rows
        invariant
            k > 0,
            nb_rows == elements.len() / k,
            elements.len() % k == 0,
            all_wf(elements@),
            values(elements@) == split_spec(bytes@, k as nat),
            rows == rows_of(split_spec(bytes@, k as nat), k as nat),
            nb_rows > 0 ==> is_pow2_exists(n as int) && n <= pow2(32),
            i <= nb_rows,
            evaluations@.len() == i,
            forall|t: int| 0 <= t < i ==> {
                &&& all_wf(#[trigger] evaluations@[t]@)
                &&& values(evaluations@[t]@) == evaluations_of(rows[t], n as nat)
            },
        decreases nb_rows - i,
    {
        proof {
            vstd::arithmetic::mul::lemma_mul_inequality((i + 1) as int, nb_rows as int, k as int);
            vstd::arithmetic::div_mod::lemma_fundamental_div_mod(elements.len() as int, k as int);
            assert(nb_rows * k == elements.len()) by (nonlinear_arith)
                requires
                    elements.len() as int == k * (elements.len() as int / k as int) + elements.len() as int % k as int,
                    elements.len() % k == 0,
                    nb_rows == elements.len() / k,
            ;
            assert((i + 1) * k == i * k + k) by (nonlinear_arith);
        }
        let start = i * k;
        let mut row: Vec<Scalar> = Vec::new();
        let mut j: usize = 0;
        while j < k
            invariant
                start == i * k,
                start + k <= elements.len(),
                j <= k,
                row@.len() == j,
                forall|t: int| 0 <= t < j ==> #[trigger] row@[t] == elements@[start + t],
            decreases k - j,
        {
            row.push(elements[start + j]);
            j = j + 1;
        }
        proof {
            assert(values(row@) =~= rows[i as int]);
            assert(all_wf(row@));
        }
        evaluations.push(fri_to_evaluations(&row, n));
        i = i + 1;
    }
    proof {
        assert(rows.len() == nb_rows);
    }
    evaluations
}

/// The shard of column `i` of the evaluations: the hash and size of the data
/// and no linear combination.
pub open spec fn fri_shard(bytes: Seq<u8>, evaluations: Seq<Seq<nat>>, k: u32, i: int) -> ShardView {
    ShardView {
        k: k as nat,
        linear_combination: Seq::empty(),
        hash: sha256_digest(bytes),
        data: Seq::new(evaluations.len(), |j: int| evaluations[j][i]),
        size: bytes.len(),
    }
}

/// Makes one shard of each column of the evaluations of the rows.
pub fn encode(bytes: &[u8], evaluations: &[Vec<Scalar>], k: usize) -> (r: Vec<Shard>)
    requires
        evaluations@.len() > 0,
        forall|j: int| 0 <= j < evaluations@.len() ==> #[trigger] evaluations@[j]@.len() >= evaluations@[0]@.len(),
        forall|j: int| 0 <= j < evaluations@.len() ==> all_wf(#[trigger] evaluations@[j]@),
    ensures
        r@.len() == evaluations@[0]@.len(),
        forall|i: int| 0 <= i < r@.len() ==> {
            &&& (#[trigger] r@[i]).wf()
            &&& r@[i]@ == fri_shard(
                bytes@,
                Seq::new(evaluations@.len(), |j: int| values(evaluations@[j]@)),
                k as u32,
                i,
            )
        },
{
    let hash = sha256(bytes);
    let n = evaluations[0].len();
    let t = transpose(evaluations);
    let ghost ev = Seq::new(evaluations@.len(), |j: int| values(evaluations@[j]@));
    let mut shards: Vec<Shard> = Vec::new();
    let mut i: usize = 0;
    while i < n
        invariant
            n == evaluations@[0]@.len(),
            t@.len() == n,
            forall|a: int| 0 <= a < t@.len() ==> #[trigger] t@[a]@.len() == evaluations@.len(),
            forall|a: int, j: int| 0 <= a < t@.len() && 0 <= j < evaluations@.len() ==> #[trigger] t@[a]@[j] == evaluations@[j]@[a],
            forall|j: int| 0 <= j < evaluations@.len() ==> #[trigger] evaluations@[j]@.len() >= evaluations@[0]@.len(),
            forall|j: int| 0 <= j < evaluations@.len() ==> all_wf(#[trigger] evaluations@[j]@),
            ev == Seq::new(evaluations@.len(), |j: int| values(evaluations@[j]@)),
            hash@ == sha256_digest(bytes@),
            i <= n,
            shards@.len() == i,
            forall|a: int| 0 <= a < i ==> {
                &&& (#[trigger] shards@[a]).wf()
                &&& shards@[a]@ == fri_shard(bytes@, ev, k as u32, a)
            },
        decreases n - i,
    {
        let data = copy_scalars(&t[i]);
        let shard = Shard {
            k: k as u32,
            linear_combination: Vec::new(),
            hash: hash.clone(),
            data,
            size: bytes.len(),
        };
        proof {
            assert(shard.hash@ == hash@);
            assert forall|j: int| 0 <= j < data@.len() implies #[trigger] data@[j].wf() by {
                assert(t@[i as int]@[j] == evaluations@[j]@[i as int]);
                assert(evaluations@[j]@[i as int].wf());
            }
            assert(values(data@) =~= Seq::new(ev.len(), |j: int| ev[j][i as int]));
            assert(values(shard.linear_combination@) =~= Seq::<nat>::empty());
        }
        shards.push(shard);
        i = i + 1;
    }
    shards
}

/// The sequence `s` cut or padded with zeros to `len` elements.
pub open spec fn resized(s: Seq<u8>, len: nat) -> Seq<u8> {
    if len <= s.len() {
        s.take(len as int)
    } else {
        s + Seq::new((len - s.len()) as nat, |i: int| 0u8)
    }
}

/// The concatenation of sequences of field elements.
pub open spec fn concat_values(parts: Seq<Seq<nat>>) -> Seq<nat>
    decreases parts.len(),
{
    if parts.len() == 0 {
        Seq::empty()
    } else {
        concat_values(parts.drop_last()) + parts.last()
    }
}

proof fn lemma_fpow_add(b: nat, x: nat, y: nat)
    ensures
        fpow(b, x + y) == fmul(fpow(b, x), fpow(b, y)),
    decreases y,
{
    lemma_modulus_facts();
    let p = modulus_p() as int;
    if y == 0 {
        assert(fpow(b, x) < modulus_p()) by {
            if x > 0 {
                vstd::arithmetic::div_mod::lemma_mod_bound((fpow(b, (x - 1) as nat) * b) as int, p);
            }
        }
        vstd::arithmetic::div_mod::lemma_small_mod(fpow(b, x), modulus_p());
        assert(fpow(b, 0) == 1);
        assert(fpow(b, x) * 1 == fpow(b, x));
        assert(fpow(b, x + y) == fmul(fpow(b, x), fpow(b, y)));
    } else {
        lemma_fpow_add(b, x, (y - 1) as nat);
        let (u, v) = (fpow(b, x) as int, fpow(b, (y - 1) as nat) as int);
        // (((u v) % p) b) % p == (u ((v b) % p)) % p
        vstd::arithmetic::div_mod::lemma_mul_mod_noop_left(u * v, b as int, p);
        vstd::arithmetic::div_mod::lemma_mul_mod_noop_right(u, v * b, p);
        vstd::arithmetic::mul::lemma_mul_is_associative(u, v, b as int);
        assert(fpow(b, x + y) == fmul(fpow(b, (x + (y - 1) as nat) as nat), b));
        assert(fpow(b, y) == fmul(fpow(b, (y - 1) as nat), b));
        assert(fmul(fpow(b, x), fpow(b, (y - 1) as nat)) == ((u * v) % p) as nat);
        assert(fpow(b, x + y) == (((u * v) % p) * b) % p);
        assert(fmul(fpow(b, x), fpow(b, y)) == (u * ((v * b) % p)) % p);
        assert((((u * v) % p) * b) % p == ((u * v) * b) % p);
        assert((u * ((v * b) % p)) % p == (u * (v * b)) % p);
        assert(fpow(b, x + y) == fmul(fpow(b, x), fpow(b, y)));
    }
}

proof fn lemma_fpow_period(b: nat, e: nat, n: nat)
    requires
        n > 0,
        fpow(b, n) == 1,
    ensures
        fpow(b, e) == fpow(b, e % n),
    decreases e,
{
    if e >= n {
        lemma_fpow_period(b, (e - n) as nat, n);
        lemma_fpow_add(b, (e - n) as nat, n);
        lemma_modulus_facts();
        vstd::arithmetic::div_mod::lemma_mod_sub_multiples_vanish(e as int, n as int);
        let x = fpow(b, (e - n) as nat);
        assert(x < modulus_p()) by {
            if e - n > 0 {
                vstd::arithmetic::div_mod::lemma_mod_bound((fpow(b, (e - n - 1) as nat) * b) as int, modulus_p() as int);
            }
        }
        vstd::arithmetic::div_mod::lemma_small_mod(x, modulus_p());
        assert(((e - n) as nat) % n == e % n) by {
            vstd::arithmetic::div_mod::lemma_mod_sub_multiples_vanish(e as int, n as int);
        }
        assert(e == (e - n) as nat + n);
    } else {
        vstd::arithmetic::div_mod::lemma_small_mod(e, n);
    }
}

/// The data that [`decode`] gives back from blocks at positions of a domain
/// of size `n`: the interpolated polynomials of the columns of the shards,
/// one after the other, as bytes cut or padded to the size of the data.
pub open spec fn decoded(positions: Seq<nat>, shards: Seq<ShardView>, n: nat) -> Seq<u8> {
    let m = shards[0].data.len();
    let columns = Seq::new(m, |i: int| Seq::new(shards.len(), |j: int| shards[j].data[i]));
    let points = Seq::new(positions.len(), |j: int| fpow(root_of_unity_of(n), positions[j]));
    resized(merge_spec(concat_values(interpolation_of(columns, points))), shards[0].size)
}

/// Decodes the data from shards at distinct positions of the domain of the
/// `n` roots of unity of order `n` (positions are taken modulo `n`), by
/// interpolation.
pub fn decode(blocks: &[(usize, Shard)], n: usize) -> (r: Vec<u8>)
    requires
        blocks@.len() > 0,
        is_pow2_exists(blocks@.len() as int),
        has_root_of_unity(n as nat),
        forall|j: int| 0 <= j < blocks@.len() ==> (#[trigger] blocks@[j]).1.wf()
            && blocks@[j].1.data@.len() >= blocks@[0].1.data@.len(),
        forall|i: int, j: int| 0 <= i < j < blocks@.len() ==> #[trigger] blocks@[i].0 % n != #[trigger] blocks@[j].0 % n,
    ensures
        r@ == decoded(
            Seq::new(blocks@.len(), |j: int| blocks@[j].0 as nat),
            Seq::new(blocks@.len(), |j: int| blocks@[j].1@),
            n as nat,
        ),
{
    let w = match ark_root_of_unity(n) {
        Some(w) => w,
        None => unreached(),
    };
    proof {
        let a = choose|a: nat| a <= 32 && (n == #[trigger] pow2(a) || n == 3 * pow2(a));
        vstd::arithmetic::power2::lemma_pow2_pos(a);
    }
    let powers = powers_of(w, n);
    let ghost ps = Seq::new(blocks@.len(), |j: int| blocks@[j].0 as nat);
    let ghost shards = Seq::new(blocks@.len(), |j: int| blocks@[j].1@);
    let mut data: Vec<Vec<Scalar>> = Vec::new();
    let mut positions: Vec<Scalar> = Vec::new();
    let mut j: usize = 0;
    while j < blocks.len()
        invariant
            forall|j: int| 0 <= j < blocks@.len() ==> (#[trigger] blocks@[j]).1.wf()
                && blocks@[j].1.data@.len() >= blocks@[0].1.data@.len(),
            w.wf(),
            n > 0,
            fpow(w@, n as nat) == 1,
            all_wf(powers@),
            powers@.len() == n,
            forall|t: int| 0 <= t < powers@.len() ==> #[trigger] powers@[t]@ == fpow(w@, t as nat),
            j <= blocks@.len(),
            data@.len() == j,
            positions@.len() == j,
            all_wf(positions@),
            forall|t: int| 0 <= t < j ==> #[trigger] data@[t]@ == blocks@[t].1.data@,
            forall|t: int| 0 <= t < j ==> #[trigger] positions@[t]@ == fpow(w@, blocks@[t].0 as nat),
        decreases blocks@.len() - j,
    {
        proof {
            assert(blocks@[j as int].1.wf());
        }
        data.push(copy_scalars(&blocks[j].1.data));
        proof {
            lemma_fpow_period(w@, blocks@[j as int].0 as nat, n as nat);
        }
        positions.push(powers[blocks[j].0 % n]);
        j = j + 1;
    }
    proof {
        assert forall|a: int, b: int| 0 <= a < b < positions@.len() implies #[trigger] positions@[a]@ != #[trigger] positions@[b]@ by {
            let (pa, pb) = ((blocks@[a].0 % n) as nat, (blocks@[b].0 % n) as nat);
            assert(blocks@[a].0 % n != blocks@[b].0 % n);
            lemma_fpow_period(w@, blocks@[a].0 as nat, n as nat);
            lemma_fpow_period(w@, blocks@[b].0 as nat, n as nat);
            if pa < pb {
                assert(fpow(w@, pa) != fpow(w@, pb));
            } else {
                assert(fpow(w@, pb) != fpow(w@, pa));
            }
        }
        assert forall|t: int| 0 <= t < data@.len() implies #[trigger] data@[t]@.len() >= data@[0]@.len() by {
            assert(blocks@[t].1.data@.len() >= blocks@[0].1.data@.len());
        }
    }
    let columns = transpose(data.as_slice());
    proof {
        assert forall|i: int| 0 <= i < columns@.len() implies all_wf(#[trigger] columns@[i]@) by {
            assert forall|t: int| 0 <= t < columns@[i]@.len() implies #[trigger] columns@[i]@[t].wf() by {
                assert(columns@[i]@[t] == data@[t]@[i]);
                assert(blocks@[t].1.wf());
                assert(data@[t]@[i].wf());
            }
        }
    }
    let polynomials = fri_interpolate(&columns, &positions);
    let ghost polys = Seq::new(polynomials@.len(), |i: int| values(polynomials@[i]@));
    let mut elements: Vec<Scalar> = Vec::new();
    let mut i: usize = 0;
    while i < polynomials.len()
        invariant
            forall|i: int| 0 <= i < polynomials@.len() ==> all_wf(#[trigger] polynomials@[i]@),
            polys == Seq::new(polynomials@.len(), |i: int| values(polynomials@[i]@)),
            i <= polynomials@.len(),
            all_wf(elements@),
            values(elements@) == concat_values(polys.take(i as int)),
        decreases polynomials@.len() - i,
    {
        let mut next = copy_scalars(&polynomials[i]);
        proof {
            assert(polys.take(i + 1).drop_last() =~= polys.take(i as int));
            assert(all_wf(polynomials@[i as int]@));
        }
        let ghost before = elements@;
        elements.append(&mut next);
        proof {
            assert(values(elements@) =~= values(before) + polys[i as int]);
        }
        i = i + 1;
    }
    let mut bytes = merge_elements_into_bytes(elements.as_slice());
    bytes.resize(blocks[0].1.size, 0u8);
    proof {
        assert(polys.take(i as int) =~= polys);
        let m = shards[0].data.len();
        assert(columns@.len() == m);
        assert forall|i: int| 0 <= i < m implies #[trigger] values(columns@[i]@) =~= Seq::new(shards.len(), |j: int| shards[j].data[i]) by {
            assert forall|j: int| 0 <= j < shards.len() implies #[trigger] values(columns@[i]@)[j] == shards[j].data[i] by {
                assert(columns@[i]@[j] == data@[j]@[i]);
                assert(data@[j]@ == blocks@[j].1.data@);
            }
        }
        assert(Seq::new(columns@.len(), |i: int| values(columns@[i]@)) =~= Seq::new(
            m,
            |i: int| Seq::new(shards.len(), |j: int| shards[j].data[i]),
        ));
        assert(values(positions@) =~= Seq::new(ps.len(), |j: int| fpow(root_of_unity_of(n as nat), ps[j])));
        assert(bytes@ =~= decoded(ps, shards, n as nat));
    }
    bytes
}

} // verus!
