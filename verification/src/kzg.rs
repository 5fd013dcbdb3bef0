//! KZG+: a KZG10 commitment of each of the $m$ source polynomials, and one
//! proof per shard for a random combination of the polynomials.
//!
//! A shard $s$ evaluated at $\alpha$ holds the evaluations $s_i = P_i(\alpha)$
//! of the polynomials. Its proof opens $Q = \sum_i r^i P_i$ at $\alpha$,
//! where $r$ is drawn from the hash of the shard; the verifier computes
//! $y = \sum_i r^i s_i$ and $c = \sum_i r^i c_i$ from the commitments $c_i$,
//! and checks $e(c - [y]_1, [1]_2) = e(\pi, [\tau]_2 - [\alpha]_2)$.
use vstd::prelude::*;
use vstd::string::StringExecFns;
use crate::error::KomodoError;
use crate::field::{Scalar, all_wf, values, fadd, fmul, fpow, le_bytes, le_value, decimal, modulus_p, lemma_modulus_facts};
use crate::algebra::{powers_of, scalar_product_polynomial};
use crate::algebra::poly::{Polynomial, coeff, trimmed};
use crate::algebra::sums::sum;
use crate::curve::{
    G1, G2, Gt, g1_identity_bytes, g1_sum_of, g1_difference_of, g1_multiple_of, g1_combination, g2_difference_of,
    g2_multiple_of, pairing_of, ark_g1_identity, ark_g1_add, ark_g1_sub, ark_g1_mul, ark_g2_sub, ark_g2_mul, ark_pairing,
};
use crate::fec::{Shard, sha256, sha256_digest, usize_to_string};
use crate::kzg10::{
    too_many_coefficients_message,
    Powers, VerifierKey, kzg_commitment_of, witness_of, degree_of, too_many_coefficients_text, encodings,
    ark_kzg_commit, ark_witness_polynomial,
};
use crate::zk;

verus! {

/// The commitments of the $m$ polynomials.
#[derive(Clone, Debug, PartialEq, Default)]
pub struct Commitment(pub Vec<G1>);

/// The proof of one shard: the commitment of a witness polynomial.
#[derive(Clone, Debug, PartialEq, Default)]
pub struct Proof(pub G1);

impl Commitment {
    /// All the commitments are points.
    pub open spec fn wf(&self) -> bool {
        forall|i: int| 0 <= i < self.0@.len() ==> #[trigger] self.0@[i].wf()
    }

    /// Commitment `i`.
    pub fn index(&self, i: usize) -> (r: &G1)
        requires
            i < self.0@.len(),
        ensures
            *r == self.0@[i as int],
    {
        &self.0[i]
    }
}

/// The 32 little-endian bytes of each element, one after the other.
pub open spec fn elements_bytes(d: Seq<nat>) -> Seq<u8>
    decreases d.len(),
{
    if d.len() == 0 {
        Seq::empty()
    } else {
        elements_bytes(d.drop_last()) + le_bytes(d.last(), 32)
    }
}

/// The challenge $r$ drawn from some data: its hash, as a field element.
pub open spec fn challenge(d: Seq<nat>) -> nat {
    le_value(sha256_digest(elements_bytes(d))) % modulus_p()
}

/// `q` is the polynomial $\sum_i r^i P_i$, without trailing zeros.
pub open spec fn is_combination(q: Seq<nat>, polynomials: Seq<Seq<nat>>, r: nat) -> bool {
    &&& trimmed(q)
    &&& forall|j: int| #[trigger] coeff(q, j) == (sum(
        polynomials.len(),
        |i: int| (fpow(r, i as nat) * coeff(polynomials[i], j)) as int,
    ) % (modulus_p() as int)) as nat
}

/// The polynomial $\sum_i r^i P_i$.
pub open spec fn combination(polynomials: Seq<Seq<nat>>, r: nat) -> Seq<nat> {
    choose|q: Seq<nat>| is_combination(q, polynomials, r)
}

/// `e` is the error of an opening of a polynomial that does not fit in the
/// powers.
pub open spec fn is_open_error(e: KomodoError, q: Seq<nat>, nb_powers: nat) -> bool {
    e matches KomodoError::Other(s) && s@ == "kzg open error: "@ + too_many_coefficients_text(degree_of(q) + 1, nb_powers)
}

/// The views of a sequence of polynomials.
pub open spec fn poly_views(polynomials: Seq<Polynomial>) -> Seq<Seq<nat>> {
    polynomials.map_values(|p: Polynomial| p@)
}

/// $\sum_{i < n} r^i d_i$, summed one term after the other from zero.
pub open spec fn weighted_sum(d: Seq<nat>, r: nat, n: nat) -> nat
    decreases n,
{
    if n == 0 {
        0
    } else {
        fadd(weighted_sum(d, r, (n - 1) as nat), fmul(d[n - 1], fpow(r, (n - 1) as nat)))
    }
}

/// The number of terms of the combination of a shard with the commitments.
pub open spec fn terms(a: nat, b: nat) -> nat {
    if a <= b { a } else { b }
}

/// $y = \sum_i r^i s_i$ for a shard $s$.
pub open spec fn shard_y(d: Seq<nat>, nb_commitments: nat) -> nat {
    weighted_sum(d, challenge(d), terms(d.len(), nb_commitments))
}

/// $c = \sum_i r^i c_i$ for a shard $s$ and the commitments $c_i$.
pub open spec fn shard_c(d: Seq<nat>, commitments: Seq<Seq<u8>>) -> Seq<u8> {
    g1_combination(
        commitments,
        Seq::new(d.len(), |i: int| fpow(challenge(d), i as nat)),
        terms(d.len(), commitments.len()),
    )
}

/// The pairing check of one shard: $e(c - [y]_1, h) = e(\pi, [\beta]_2 - [\alpha]_2)$.
pub open spec fn shard_check(d: Seq<nat>, commitments: Seq<Seq<u8>>, w: Seq<u8>, point: nat, g: Seq<u8>, h: Seq<u8>, beta_h: Seq<u8>) -> bool {
    pairing_of(g1_difference_of(shard_c(d, commitments), g1_multiple_of(g, shard_y(d, commitments.len()))), h)
        == pairing_of(w, g2_difference_of(beta_h, g2_multiple_of(h, point)))
}

/// Only the proof's side of the pairing check reads the proof: where the
/// check of a shard holds with one proof $\pi$, it holds with another $\pi'$
/// exactly when $e(\pi', [\beta]_2 - [\alpha]_2) = e(\pi, [\beta]_2 - [\alpha]_2)$;
/// any other proof is refused.
pub proof fn lemma_shard_check_reads_the_proof(
    d: Seq<nat>,
    commitments: Seq<Seq<u8>>,
    w: Seq<u8>,
    w2: Seq<u8>,
    point: nat,
    g: Seq<u8>,
    h: Seq<u8>,
    beta_h: Seq<u8>,
)
    requires
        shard_check(d, commitments, w, point, g, h, beta_h),
    ensures
        shard_check(d, commitments, w2, point, g, h, beta_h) == (
            pairing_of(w2, g2_difference_of(beta_h, g2_multiple_of(h, point)))
                == pairing_of(w, g2_difference_of(beta_h, g2_multiple_of(h, point)))
        ),
{
}

pub(crate) proof fn lemma_combination(q: Seq<nat>, polynomials: Seq<Seq<nat>>, r: nat, r_vec: Seq<nat>)
    requires
        trimmed(q),
        r_vec.len() >= polynomials.len(),
        forall|i: int| 0 <= i < r_vec.len() ==> #[trigger] r_vec[i] == fpow(r, i as nat),
        forall|j: int| #[trigger] coeff(q, j) == (sum(
            polynomials.len(),
            |i: int| (r_vec[i] * coeff(polynomials[i], j)) as int,
        ) % (modulus_p() as int)) as nat,
    ensures
        is_combination(q, polynomials, r),
        combination(polynomials, r) == q,
{
    assert forall|j: int| #[trigger] coeff(q, j) == (sum(
        polynomials.len(),
        |i: int| (fpow(r, i as nat) * coeff(polynomials[i], j)) as int,
    ) % (modulus_p() as int)) as nat by {
        crate::algebra::sums::lemma_sum_ext(
            polynomials.len(),
            |i: int| (r_vec[i] * coeff(polynomials[i], j)) as int,
            |i: int| (fpow(r, i as nat) * coeff(polynomials[i], j)) as int,
        );
    }
    assert(is_combination(q, polynomials, r));
    let c = combination(polynomials, r);
    assert(is_combination(c, polynomials, r));
    crate::algebra::poly::lemma_coeff_ext(c, q);
}

fn data_bytes(data: &Vec<Scalar>) -> (r: Vec<u8>)
    requires
        all_wf(data@),
    ensures
        r@ == elements_bytes(values(data@)),
{
    let mut bytes: Vec<u8> = Vec::new();
    let mut i: usize = 0;
    while i < data.len()
        invariant
            all_wf(data@),
            i <= data@.len(),
            bytes@ == elements_bytes(values(data@.subrange(0, i as int))),
        decreases data@.len() - i,
    {
        let mut b = data[i].to_bytes_le();
        bytes.append(&mut b);
        proof {
            assert(values(data@.subrange(0, i + 1)).drop_last() =~= values(data@.subrange(0, i as int)));
        }
        i = i + 1;
    }
    proof {
        assert(data@.subrange(0, data@.len() as int) =~= data@);
    }
    bytes
}

fn shard_challenge(data: &Vec<Scalar>) -> (r: Scalar)
    requires
        all_wf(data@),
    ensures
        r.wf(),
        r@ == challenge(values(data@)),
{
    let bytes = data_bytes(data);
    let hash = sha256(bytes.as_slice());
    Scalar::from_le_bytes_mod_order(hash.as_slice())
}

/// Commits the polynomials, one commitment each.
///
/// The first polynomial with more coefficients than there are powers gives
/// an error with the text of the error of `ark_poly_commit`.
pub fn commit(powers: &Powers, polynomials: &[Polynomial]) -> (r: Result<Commitment, KomodoError>)
    requires
        powers.wf(),
        forall|i: int| 0 <= i < polynomials@.len() ==> #[trigger] polynomials@[i].wf(),
    ensures
        match r {
            Ok(c) => {
                &&& c.wf()
                &&& c.0@.len() == polynomials@.len()
                &&& forall|i: int| 0 <= i < c.0@.len() ==> #[trigger] c.0@[i]@ == kzg_commitment_of(
                    encodings(powers.powers_of_g@),
                    polynomials@[i]@,
                )
            },
            Err(e) => exists|i: int| 0 <= i < polynomials@.len() && {
                &&& forall|j: int| 0 <= j < i ==> degree_of(#[trigger] polynomials@[j]@) + 1 <= powers.powers_of_g@.len()
                &&& degree_of(#[trigger] polynomials@[i]@) + 1 > powers.powers_of_g@.len()
                &&& e matches KomodoError::Other(s) && s@ == "Serialization: "@ + too_many_coefficients_text(
                    degree_of(polynomials@[i]@) + 1,
                    powers.powers_of_g@.len() as nat,
                )
            },
        },
{
    match zk::ark_commit(powers, polynomials) {
        Ok(commitments) => {
            let c = Commitment(commitments);
            proof {
                assert forall|i: int| 0 <= i < c.0@.len() implies #[trigger] c.0@[i].wf() by {
                    assert(degree_of(polynomials@[i]@) + 1 <= powers.powers_of_g@.len());
                }
            }
            Ok(c)
        },
        Err(error) => {
            let mut text = String::from_str("Serialization: ");
            text.append(error.as_str());
            Err(KomodoError::Other(text))
        },
    }
}

/// Proves each shard by opening, at its evaluation point, the combination
/// of the polynomials with the powers of its challenge.
///
/// An error is returned when one of these combinations has more
/// coefficients than there are powers.
pub fn prove(polynomials: &[Polynomial], shards: &[Shard], points: &[Scalar], powers: &Powers) -> (r: Result<Vec<Proof>, KomodoError>)
    requires
        shards@.len() == points@.len(),
        forall|i: int| 0 <= i < polynomials@.len() ==> #[trigger] polynomials@[i].wf(),
        forall|i: int| 0 <= i < shards@.len() ==> #[trigger] shards@[i].wf(),
        all_wf(points@),
        powers.wf(),
    ensures
        match r {
            Ok(proofs) => {
                &&& proofs@.len() == shards@.len()
                &&& forall|j: int| 0 <= j < proofs@.len() ==> {
                    let q = combination(poly_views(polynomials@), challenge(#[trigger] shards@[j]@.data));
                    &&& degree_of(q) + 1 <= powers.powers_of_g@.len()
                    &&& proofs@[j].0.wf()
                    &&& proofs@[j].0@ == kzg_commitment_of(
                        encodings(powers.powers_of_g@),
                        witness_of(q, points@[j]@),
                    )
                }
            },
            Err(e) => exists|j: int| 0 <= j < shards@.len() && {
                let q = combination(poly_views(polynomials@), challenge(#[trigger] shards@[j]@.data));
                &&& degree_of(q) + 1 > powers.powers_of_g@.len()
                &&& is_open_error(e, q, powers.powers_of_g@.len() as nat)
            },
        },
{
    let mut proofs: Vec<Proof> = Vec::new();
    let mut j: usize = 0;
    while j < shards.len()
        invariant
            shards@.len() == points@.len(),
            forall|i: int| 0 <= i < polynomials@.len() ==> #[trigger] polynomials@[i].wf(),
            forall|i: int| 0 <= i < shards@.len() ==> #[trigger] shards@[i].wf(),
            all_wf(points@),
            powers.wf(),
            j <= shards@.len(),
            proofs@.len() == j,
            forall|t: int| 0 <= t < j ==> {
                let q = combination(poly_views(polynomials@), challenge(#[trigger] shards@[t]@.data));
                &&& degree_of(q) + 1 <= powers.powers_of_g@.len()
                &&& proofs@[t].0.wf()
                &&& proofs@[t].0@ == kzg_commitment_of(
                    encodings(powers.powers_of_g@),
                    witness_of(q, points@[t]@),
                )
            },
        decreases shards@.len() - j,
    {
        let s = &shards[j];
        proof {
            assert(shards@[j as int].wf());
        }
        let r = shard_challenge(&s.data);
        let r_vec = powers_of(r, polynomials.len());
        let q = scalar_product_polynomial(r_vec.as_slice(), polynomials);
        proof {
            assert forall|j: int| #[trigger] coeff(q@, j) == (sum(
                polynomials@.len() as nat,
                |i: int| (values(r_vec@)[i] * coeff(poly_views(polynomials@)[i], j)) as int,
            ) % (modulus_p() as int)) as nat by {
                crate::algebra::sums::lemma_sum_ext(
                    polynomials@.len() as nat,
                    |i: int| (r_vec@[i]@ * coeff(polynomials@[i]@, j)) as int,
                    |i: int| (values(r_vec@)[i] * coeff(poly_views(polynomials@)[i], j)) as int,
                );
            }
            lemma_combination(q@, poly_views(polynomials@), r@, values(r_vec@));
        }
        let _ = q.coeffs.len();
        let degree = q.degree();
        let nb_powers = powers.size();
        proof {
            assert(challenge(shards@[j as int]@.data) == r@);
        }
        if degree + 1 > nb_powers {
            let mut text = String::from_str("kzg open error: ");
            text.append(too_many_coefficients_message(degree + 1, nb_powers).as_str());
            let e = KomodoError::Other(text);
            proof {
                reveal_strlit("kzg open error: ");
                assert(is_open_error(e, q@, nb_powers as nat));
            }
            return Err(e);
        }
        let witness = ark_witness_polynomial(&q, &points[j]);
        proof {
            assert(degree_of(witness@) + 1 <= powers.powers_of_g@.len());
        }
        match ark_kzg_commit(powers, &witness) {
            Ok(w) => proofs.push(Proof(w)),
            Err(error) => {
                let mut text = String::from_str("kzg open error: ");
                text.append(error.as_str());
                return Err(KomodoError::Other(text));
            },
        }
        j = j + 1;
    }
    Ok(proofs)
}

/// The errors of `ark_serialize`.
#[verifier::external_type_specification]
#[verifier::external_body]
pub struct ExSerializationError(ark_serialize::SerializationError);

/// Computes $y = \sum_i r^i s_i$ and $c = \sum_i r^i c_i$ for a shard, where
/// $r$ is the challenge of its data, over the common length of the data and
/// the commitments.
pub fn compute_data_for_one_shard(shard: &Shard, commitment: &Commitment) -> (r: (Scalar, G1))
    requires
        shard.wf(),
        commitment.wf(),
    ensures
        r.0.wf(),
        r.0@ == shard_y(shard@.data, commitment.0@.len() as nat),
        r.1.wf(),
        r.1@ == shard_c(shard@.data, encodings(commitment.0@)),
{
    proof {
        lemma_modulus_facts();
    }
    let r = shard_challenge(&shard.data);
    let r_vec = powers_of(r, shard.data.len());
    let n = if shard.data.len() <= commitment.0.len() { shard.data.len() } else { commitment.0.len() };
    let ghost d = shard@.data;
    let ghost ws = Seq::new(d.len(), |i: int| fpow(challenge(d), i as nat));
    let mut y = Scalar::zero();
    let mut c = ark_g1_identity();
    let mut i: usize = 0;
    while i < n
        invariant
            shard.wf(),
            commitment.wf(),
            d == shard@.data,
            r@ == challenge(d),
            ws == Seq::new(d.len(), |i: int| fpow(challenge(d), i as nat)),
            n <= shard.data@.len(),
            n <= commitment.0@.len(),
            r_vec@.len() >= shard.data@.len(),
            all_wf(r_vec@),
            forall|t: int| 0 <= t < r_vec@.len() ==> #[trigger] r_vec@[t]@ == fpow(r@, t as nat),
            i <= n,
            y.wf(),
            y@ == weighted_sum(d, challenge(d), i as nat),
            c.wf(),
            c@ == g1_combination(encodings(commitment.0@), ws, i as nat),
        decreases n - i,
    {
        proof {
            assert(shard.data@[i as int]@ == d[i as int]);
            assert(commitment.0@[i as int].wf());
        }
        let term = shard.data[i].mul(&r_vec[i]);
        y = y.add(&term);
        let point = ark_g1_mul(commitment.index(i), &r_vec[i]);
        c = ark_g1_add(&c, &point);
        i = i + 1;
    }
    (y, c)
}

/// Verifies a shard with its proof, at its evaluation point: the pairing
/// check $e(c - [y]_1, h) = e(\pi, [\beta]_2 - [\alpha]_2)$.
pub fn verify(shard: &Shard, commitment: &Commitment, proof: &Proof, pt: Scalar, verifier_key: &VerifierKey) -> (r: bool)
    requires
        shard.wf(),
        commitment.wf(),
        proof.0.wf(),
        pt.wf(),
        verifier_key.wf(),
    ensures
        r == shard_check(
            shard@.data,
            encodings(commitment.0@),
            proof.0@,
            pt@,
            verifier_key.g@,
            verifier_key.h@,
            verifier_key.beta_h@,
        ),
{
    let (y, c) = compute_data_for_one_shard(shard, commitment);
    let p1 = ark_g1_sub(&c, &ark_g1_mul(&verifier_key.g, &y));
    let inner = ark_g2_sub(&verifier_key.beta_h, &ark_g2_mul(&verifier_key.h, &pt));
    let lhs = ark_pairing(&p1, &verifier_key.h);
    let rhs = ark_pairing(&proof.0, &inner);
    lhs.equals(&rhs)
}

/// The encodings of the proofs of the blocks, one after the other.
pub open spec fn proofs_bytes(blocks: Seq<(Shard, Proof)>) -> Seq<u8>
    decreases blocks.len(),
{
    if blocks.len() == 0 {
        Seq::empty()
    } else {
        proofs_bytes(blocks.drop_last()) + blocks.last().1.0@
    }
}

/// The aggregates $\Pi = \sum_j r^j \pi_j$ and
/// $A = \sum_j r^j (c_j - [y_j]_1 + \alpha_j \pi_j)$ over the first `n`
/// blocks, each summed from the point at infinity.
pub open spec fn aggregates(
    blocks: Seq<(Shard, Proof)>,
    commitments: Seq<Seq<u8>>,
    pts: Seq<nat>,
    r: nat,
    g: Seq<u8>,
    n: nat,
) -> (Seq<u8>, Seq<u8>)
    decreases n,
{
    if n == 0 {
        (g1_identity_bytes(), g1_identity_bytes())
    } else {
        let prev = aggregates(blocks, commitments, pts, r, g, (n - 1) as nat);
        let d = blocks[n - 1].0@.data;
        let w = blocks[n - 1].1.0@;
        let ri = fpow(r, (n - 1) as nat);
        let inner = g1_sum_of(
            g1_difference_of(shard_c(d, commitments), g1_multiple_of(g, shard_y(d, commitments.len()))),
            g1_multiple_of(w, pts[n - 1]),
        );
        (g1_sum_of(prev.0, g1_multiple_of(w, ri)), g1_sum_of(prev.1, g1_multiple_of(inner, ri)))
    }
}

/// The term of one block in the aggregate $A$ of a batch:
/// $c - [y]_1 + \alpha \pi$, with $c$ and $y$ those of its shard, $\pi$ its
/// proof and $\alpha$ its evaluation point.
pub open spec fn batch_term(block: (Shard, Proof), commitments: Seq<Seq<u8>>, alpha: nat, g: Seq<u8>) -> Seq<u8> {
    let d = block.0@.data;
    g1_sum_of(
        g1_difference_of(shard_c(d, commitments), g1_multiple_of(g, shard_y(d, commitments.len()))),
        g1_multiple_of(block.1.0@, alpha),
    )
}

/// Batch verification weighs every block: over the first `n` blocks (those
/// that have a point), the aggregate $\Pi$ is the combination
/// $\sum_{j < n} r^j \pi_j$ of all their proofs, and $A$ the combination
/// $\sum_{j < n} r^j (c_j - [y_j]_1 + \alpha_j \pi_j)$ of all their terms,
/// block `j` with weight $r^j$, the last block included.
pub proof fn lemma_aggregates_weigh_every_block(
    blocks: Seq<(Shard, Proof)>,
    commitments: Seq<Seq<u8>>,
    pts: Seq<nat>,
    r: nat,
    g: Seq<u8>,
    n: nat,
)
    requires
        n <= blocks.len(),
        n <= pts.len(),
    ensures
        aggregates(blocks, commitments, pts, r, g, n).0 == g1_combination(
            Seq::new(blocks.len(), |j: int| blocks[j].1.0@),
            Seq::new(blocks.len(), |j: int| fpow(r, j as nat)),
            n,
        ),
        aggregates(blocks, commitments, pts, r, g, n).1 == g1_combination(
            Seq::new(blocks.len(), |j: int| batch_term(blocks[j], commitments, pts[j], g)),
            Seq::new(blocks.len(), |j: int| fpow(r, j as nat)),
            n,
        ),
    decreases n,
{
    if n > 0 {
        lemma_aggregates_weigh_every_block(blocks, commitments, pts, r, g, (n - 1) as nat);
    }
}

/// The challenge of a batch: the hash of the proofs, as a field element.
pub open spec fn batch_challenge(blocks: Seq<(Shard, Proof)>) -> nat {
    le_value(sha256_digest(proofs_bytes(blocks))) % modulus_p()
}

/// Verifies a batch of blocks with a single pairing check:
/// $e(\Pi, [\beta]_2) = e(A, h)$ for the [`aggregates`] with the powers of
/// the challenge of the batch, over the common length of the blocks and the
/// points.
pub fn batch_verify(
    blocks: &[(Shard, Proof)],
    commitment: &Commitment,
    pts: &[Scalar],
    verifier_key: &VerifierKey,
) -> (r: Result<bool, ark_serialize::SerializationError>)
    requires
        forall|i: int| 0 <= i < blocks@.len() ==> (#[trigger] blocks@[i]).0.wf() && blocks@[i].1.0.wf(),
        commitment.wf(),
        all_wf(pts@),
        verifier_key.wf(),
    ensures
        r matches Ok(b) && {
            let n = terms(blocks@.len() as nat, pts@.len() as nat);
            let agg = aggregates(blocks@, encodings(commitment.0@), values(pts@), batch_challenge(blocks@), verifier_key.g@, n);
            b == (pairing_of(agg.0, verifier_key.beta_h@) == pairing_of(agg.1, verifier_key.h@))
        },
{
    let mut data: Vec<u8> = Vec::new();
    let mut i: usize = 0;
    while i < blocks.len()
        invariant
            i <= blocks@.len(),
            data@ == proofs_bytes(blocks@.subrange(0, i as int)),
        decreases blocks@.len() - i,
    {
        let mut b = blocks[i].1.0.to_bytes();
        data.append(&mut b);
        proof {
            assert(blocks@.subrange(0, i + 1).drop_last() =~= blocks@.subrange(0, i as int));
        }
        i = i + 1;
    }
    proof {
        assert(blocks@.subrange(0, blocks@.len() as int) =~= blocks@);
    }
    let hash = sha256(data.as_slice());
    let r = Scalar::from_le_bytes_mod_order(hash.as_slice());
    let r_vec = powers_of(r, blocks.len());
    let n = if blocks.len() <= pts.len() { blocks.len() } else { pts.len() };
    let ghost cs = encodings(commitment.0@);
    let ghost ps = values(pts@);
    let mut proof_agg = ark_g1_identity();
    let mut inner_agg = ark_g1_identity();
    let mut j: usize = 0;
    while j < n
        invariant
            forall|i: int| 0 <= i < blocks@.len() ==> (#[trigger] blocks@[i]).0.wf() && blocks@[i].1.0.wf(),
            commitment.wf(),
            all_wf(pts@),
            verifier_key.wf(),
            cs == encodings(commitment.0@),
            ps == values(pts@),
            r@ == batch_challenge(blocks@),
            n <= blocks@.len(),
            n <= pts@.len(),
            r_vec@.len() >= blocks@.len(),
            all_wf(r_vec@),
            forall|t: int| 0 <= t < r_vec@.len() ==> #[trigger] r_vec@[t]@ == fpow(r@, t as nat),
            j <= n,
            proof_agg.wf(),
            inner_agg.wf(),
            (proof_agg@, inner_agg@) == aggregates(blocks@, cs, ps, r@, verifier_key.g@, j as nat),
        decreases n - j,
    {
        let block = &blocks[j];
        proof {
            assert(blocks@[j as int].0.wf() && blocks@[j as int].1.0.wf());
        }
        let (y, c) = compute_data_for_one_shard(&block.0, commitment);
        let scaled_proof = ark_g1_mul(&block.1.0, &r_vec[j]);
        proof_agg = ark_g1_add(&proof_agg, &scaled_proof);
        let lhs = ark_g1_sub(&c, &ark_g1_mul(&verifier_key.g, &y));
        let term = ark_g1_add(&lhs, &ark_g1_mul(&block.1.0, &pts[j]));
        let scaled_term = ark_g1_mul(&term, &r_vec[j]);
        inner_agg = ark_g1_add(&inner_agg, &scaled_term);
        j = j + 1;
    }
    let lhs = ark_pairing(&proof_agg, &verifier_key.beta_h);
    let rhs = ark_pairing(&inner_agg, &verifier_key.h);
    Ok(lhs.equals(&rhs))
}

} // verus!
