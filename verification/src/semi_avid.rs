//! Semi-AVID: commit to the source shards of some data, and check that a
//! shard, possibly recoded, is consistent with the commitment.
//!
//! The data is arranged in an $m \times k$ matrix of field elements, as in
//! [`crate::fec`]; column `i` of this matrix is seen as a polynomial and
//! committed. A shard with coefficients $(\alpha_i)$ and data $s$ is valid
//! when the commitment of $s$ is $\sum_i \alpha_i c_i$.
use vstd::prelude::*;
use crate::error::KomodoError;
use crate::field::{Scalar, all_wf, values, modulus_p, lemma_modulus_facts};
use crate::algebra::{lemma_split_fits, split_data_into_field_elements, split_spec};
use crate::algebra::poly::{Polynomial, trim_spec, coeff, lemma_trim};
use crate::curve::{G1, g1_combination, ark_g1_identity, ark_g1_add, ark_g1_mul, g1_equals};
use crate::fec::{Shard, source_matrix, column, lemma_source_matrix};
use crate::zk::{self, Powers, points_view, committed, fits, too_few_powers};

verus! {

/// The commitments of the $k$ column polynomials of some data.
#[derive(Clone, Debug, PartialEq, Default)]
pub struct Commitment(pub Vec<zk::Commitment>);

impl Commitment {
    /// All the commitments are points.
    pub open spec fn wf(&self) -> bool {
        forall|i: int| 0 <= i < self.0@.len() ==> #[trigger] self.0@[i].0.wf()
    }

    /// The encodings of the commitments.
    pub open spec fn points(&self) -> Seq<Seq<u8>> {
        Seq::new(self.0@.len(), |i: int| self.0@[i].0@)
    }

    /// The point of commitment `i`.
    pub fn index(&self, i: usize) -> (r: &G1)
        requires
            i < self.0@.len(),
        ensures
            *r == self.0@[i as int].0,
    {
        &self.0[i].0
    }
}

/// Column `i` of the source matrix of `data`, as a polynomial.
pub open spec fn column_polynomial(data: Seq<u8>, k: nat, i: int) -> Seq<nat> {
    let s = source_matrix(data, k);
    trim_spec(column(s, s.len(), i))
}

/// The source polynomials of the data: the rows of the source matrix.
fn source_polynomials(bytes: &[u8], k: usize) -> (r: Vec<Polynomial>)
    requires
        k > 0,
        bytes@.len() + k <= usize::MAX,
    ensures
        r@.len() == source_matrix(bytes@, k as nat).len(),
        forall|a: int| 0 <= a < r@.len() ==> #[trigger] r@[a].wf(),
        forall|a: int, c: int| 0 <= a < r@.len() && 0 <= c < k ==> #[trigger] coeff(r@[a]@, c) == source_matrix(bytes@, k as nat)[a][c],
{
    proof { lemma_split_fits(bytes@.len() as nat, k as nat); }
    let elements = split_data_into_field_elements(bytes, k);
    let ghost src = source_matrix(bytes@, k as nat);
    proof {
        lemma_source_matrix(bytes@, k as nat);
    }
    let m = elements.len() / k;
    proof {
        assert(values(elements@) == split_spec(bytes@, k as nat));
        assert forall|a: int, c: int| 0 <= a < m && 0 <= c < k implies #[trigger] src[a][c] == elements@[a * k + c]@ by {
            crate::algebra::linalg::lemma_index_bound(a, c, m as int, k as int);
        }
    }
    let mut polynomials: Vec<Polynomial> = Vec::new();
    let mut r: usize = 0;
    while r < m
        invariant
            k > 0,
            m == src.len(),
            m * k == elements@.len(),
            elements@.len() <= usize::MAX,
            all_wf(elements@),
            forall|a: int, c: int| 0 <= a < m && 0 <= c < k ==> #[trigger] src[a][c] == elements@[a * k + c]@,
            r <= m,
            polynomials@.len() == r,
            forall|a: int| 0 <= a < r ==> #[trigger] polynomials@[a].wf(),
            forall|a: int, c: int| 0 <= a < r && 0 <= c < k ==> #[trigger] coeff(polynomials@[a]@, c) == src[a][c],
        decreases m - r,
    {
        let mut chunk: Vec<Scalar> = Vec::new();
        let mut c: usize = 0;
        while c < k
            invariant
                k > 0,
                m * k == elements@.len(),
                elements@.len() <= usize::MAX,
                all_wf(elements@),
                r < m,
                c <= k,
                chunk@.len() == c,
                all_wf(chunk@),
                forall|b: int| 0 <= b < c ==> #[trigger] chunk@[b] == elements@[r * k + b],
            decreases k - c,
        {
            proof {
                crate::algebra::linalg::lemma_index_bound(r as int, c as int, m as int, k as int);
            }
            chunk.push(elements[r * k + c]);
            c = c + 1;
        }
        let ghost cv = values(chunk@);
        let p = Polynomial::from_coefficients_vec(chunk);
        proof {
            lemma_trim(cv);
            assert forall|c: int| 0 <= c < k implies #[trigger] coeff(p@, c) == src[r as int][c] by {
                assert(coeff(p@, c) == coeff(cv, c));
            }
        }
        polynomials.push(p);
        r = r + 1;
    }
    polynomials
}

/// The polynomials to commit: the columns of the source matrix.
fn column_polynomials(bytes: &[u8], k: usize) -> (r: Vec<Polynomial>)
    requires
        k > 0,
        bytes@.len() + k <= usize::MAX,
    ensures
        r@.len() == k,
        forall|t: int| 0 <= t < k ==> #[trigger] r@[t].wf(),
        forall|t: int| 0 <= t < k ==> #[trigger] r@[t]@ == column_polynomial(bytes@, k as nat, t),
{
    let polynomials = source_polynomials(bytes, k);
    let ghost src = source_matrix(bytes@, k as nat);
    let m = polynomials.len();
    proof {
        lemma_source_matrix(bytes@, k as nat);
    }
    let mut to_commit: Vec<Polynomial> = Vec::new();
    let mut i: usize = 0;
    while i < k
        invariant
            k > 0,
            m == src.len(),
            polynomials@.len() == m,
            forall|a: int| 0 <= a < m ==> #[trigger] polynomials@[a].wf(),
            forall|a: int, c: int| 0 <= a < m && 0 <= c < k ==> #[trigger] coeff(polynomials@[a]@, c) == src[a][c],
            forall|a: int, c: int| 0 <= a < m && 0 <= c < k ==> #[trigger] src[a][c] < modulus_p(),
            src == source_matrix(bytes@, k as nat),
            i <= k,
            to_commit@.len() == i,
            forall|t: int| 0 <= t < i ==> #[trigger] to_commit@[t].wf(),
            forall|t: int| 0 <= t < i ==> #[trigger] to_commit@[t]@ == column_polynomial(bytes@, k as nat, t),
        decreases k - i,
    {
        let mut col: Vec<Scalar> = Vec::new();
        let mut a: usize = 0;
        while a < m
            invariant
                k > 0,
                m == src.len(),
                polynomials@.len() == m,
                forall|a: int| 0 <= a < m ==> #[trigger] polynomials@[a].wf(),
                forall|a: int, c: int| 0 <= a < m && 0 <= c < k ==> #[trigger] coeff(polynomials@[a]@, c) == src[a][c],
                i < k,
                a <= m,
                col@.len() == a,
                all_wf(col@),
                forall|b: int| 0 <= b < a ==> #[trigger] col@[b]@ == src[b][i as int],
            decreases m - a,
        {
            let p = &polynomials[a];
            proof {
                assert(polynomials@[a as int].wf());
            }
            let x = if i < p.coeffs.len() { p.coeffs[i] } else { Scalar::zero() };
            proof {
                assert(coeff(p@, i as int) == src[a as int][i as int]);
                assert(x.wf());
            }
            col.push(x);
            a = a + 1;
        }
        proof {
            assert(values(col@) =~= column(src, m as nat, i as int));
        }
        to_commit.push(Polynomial::from_coefficients_vec(col));
        i = i + 1;
    }
    to_commit
}

/// Computes the Semi-AVID commitment of some data: the commitments of the
/// $k$ columns of its source matrix, seen as polynomials.
///
/// The first column that has more coefficients than there are powers in the
/// trusted setup gives an error.
pub fn commit(bytes: &[u8], powers: &Powers, k: usize) -> (r: Result<Commitment, KomodoError>)
    requires
        k > 0,
        bytes@.len() + k <= usize::MAX,
        powers.wf(),
    ensures
        match r {
            Ok(c) => {
                &&& c.wf()
                &&& c.0@.len() == k
                &&& forall|i: int| 0 <= i < k ==> {
                    &&& fits(powers.0@.len() as nat, #[trigger] column_polynomial(bytes@, k as nat, i))
                    &&& c.0@[i].0@ == committed(points_view(powers.0@), column_polynomial(bytes@, k as nat, i))
                }
            },
            Err(e) => exists|i: int| 0 <= i < k && {
                &&& forall|t: int| 0 <= t < i ==> fits(powers.0@.len() as nat, #[trigger] column_polynomial(bytes@, k as nat, t))
                &&& !fits(powers.0@.len() as nat, #[trigger] column_polynomial(bytes@, k as nat, i))
                &&& e == too_few_powers(powers.0@.len() as nat, column_polynomial(bytes@, k as nat, i))
            },
        },
{
    let to_commit = column_polynomials(bytes, k);
    match zk::batch_commit(powers, &to_commit) {
        Ok(commitments) => {
            let c = Commitment(commitments);
            proof {
                assert forall|i: int| 0 <= i < k implies {
                    &&& fits(powers.0@.len() as nat, #[trigger] column_polynomial(bytes@, k as nat, i))
                    &&& c.0@[i].0@ == committed(points_view(powers.0@), column_polynomial(bytes@, k as nat, i))
                    &&& c.0@[i].0.wf()
                } by {
                    assert(to_commit@[i]@ == column_polynomial(bytes@, k as nat, i));
                    assert(fits(powers.0@.len() as nat, to_commit@[i]@));
                }
                assert forall|i: int| 0 <= i < c.0@.len() implies #[trigger] c.0@[i].0.wf() by {
                    assert(fits(powers.0@.len() as nat, column_polynomial(bytes@, k as nat, i)));
                }
            }
            Ok(c)
        },
        Err(e) => {
            proof {
                let i = choose|i: int| 0 <= i < to_commit@.len() && {
                    &&& forall|t: int| 0 <= t < i ==> fits(powers.0@.len() as nat, #[trigger] to_commit@[t]@)
                    &&& !fits(powers.0@.len() as nat, #[trigger] to_commit@[i]@)
                    &&& e == too_few_powers(powers.0@.len() as nat, to_commit@[i]@)
                };
                assert(to_commit@[i]@ == column_polynomial(bytes@, k as nat, i));
                assert forall|t: int| 0 <= t < i implies fits(powers.0@.len() as nat, #[trigger] column_polynomial(bytes@, k as nat, t)) by {
                    assert(to_commit@[t]@ == column_polynomial(bytes@, k as nat, t));
                    assert(fits(powers.0@.len() as nat, to_commit@[t]@));
                }
            }
            Err(e)
        },
    }
}

/// Verifies that a shard is consistent with a commitment: the commitment of
/// its data is the combination of the commitments by its coefficients.
///
/// An error is returned when the data has more elements than there are
/// powers in the trusted setup.
pub fn verify(shard: &Shard, commitment: &Commitment, verifier_key: &Powers) -> (r: Result<bool, KomodoError>)
    requires
        shard.wf(),
        commitment.wf(),
        verifier_key.wf(),
        shard.linear_combination@.len() <= commitment.0@.len(),
    ensures
        match r {
            Ok(b) => {
                &&& fits(verifier_key.0@.len() as nat, trim_spec(shard@.data))
                &&& b == (committed(points_view(verifier_key.0@), trim_spec(shard@.data)) == g1_combination(
                    commitment.points(),
                    shard@.linear_combination,
                    shard@.linear_combination.len(),
                ))
            },
            Err(e) => {
                &&& !fits(verifier_key.0@.len() as nat, trim_spec(shard@.data))
                &&& e == too_few_powers(verifier_key.0@.len() as nat, trim_spec(shard@.data))
            },
        },
{
    let mut data: Vec<Scalar> = Vec::new();
    let mut t: usize = 0;
    while t < shard.data.len()
        invariant
            t <= shard.data@.len(),
            data@ == shard.data@.subrange(0, t as int),
        decreases shard.data@.len() - t,
    {
        data.push(shard.data[t]);
        proof {
            assert(data@ =~= shard.data@.subrange(0, t + 1));
        }
        t = t + 1;
    }
    proof {
        assert(data@ =~= shard.data@);
    }
    let polynomial = Polynomial::from_coefficients_vec(data);
    let commit = match zk::commit(verifier_key, &polynomial) {
        Ok(c) => c,
        Err(e) => {
            return Err(e);
        },
    };
    let mut rhs = ark_g1_identity();
    let mut i: usize = 0;
    while i < shard.linear_combination.len()
        invariant
            shard.wf(),
            commitment.wf(),
            shard.linear_combination@.len() <= commitment.0@.len(),
            i <= shard.linear_combination@.len(),
            rhs.wf(),
            rhs@ == g1_combination(commitment.points(), shard@.linear_combination, i as nat),
        decreases shard.linear_combination@.len() - i,
    {
        let term = ark_g1_mul(commitment.index(i), &shard.linear_combination[i]);
        rhs = ark_g1_add(&rhs, &term);
        i = i + 1;
    }
    Ok(g1_equals(&commit.0, &rhs))
}

} // verus!
