//! aPlonK: an extension of KZG+ where the commitments of the polynomials
//! are folded into one with an inner product argument.
pub mod ipa;
pub mod polynomial;
pub mod transcript;

use vstd::prelude::*;
use vstd::string::StringExecFns;
use crate::error::KomodoError;
use vstd::arithmetic::power2::{is_pow2_exists, is_pow2_equiv, pow2};
use crate::field::{Scalar, all_wf, values, fpow, finv, le_bytes, le_value, modulus_p, lemma_modulus_facts};
use crate::algebra::{
    powers_of, scalar_product, scalar_product_spec, scalar_product_polynomial, scalar_product_g1, scalar_product_g2, scalar_product_pairing,
    g1_views, g2_views, common_len,
};
use crate::algebra::poly::{Polynomial, coeff, eval_spec, trimmed, lemma_trim};
use crate::algebra::sums::{sum, lemma_sum_zero, lemma_sum_ext, lemma_inverse_unique};
use crate::curve::{
    G1, G2, Gt, g1_multiple_of, g2_multiple_of, g1_difference_of, g2_difference_of, g1_combination, g2_combination,
    pairing_of, pairing_sum, ark_g1_mul, ark_g2_mul, ark_g1_sub, ark_g2_sub, ark_pairing,
};
use crate::fec::{Shard, ShardView, sha256, sha256_digest};
use crate::kzg::{poly_views, combination, is_combination, lemma_combination};
use crate::kzg10::{
    self, UniversalParams, degree_of, encodings, kzg_commitment_of, witness_of, is_kzg_setup, ark_kzg_setup,
    ark_witness_polynomial,
};
use crate::zk::{ark_commit, trim};
use self::ipa::{
    Params, Round, g1s_wf, g2s_wf, gts_wf, first_round, rounds, round_u, nb_rounds, challenges_invertible, is_ipa_proof,
    is_count_error, is_inverse_error, g_polynomial, proof_bytes, proof_wf, lemma_nb_rounds, lemma_bit_len_below,
    verifier_challenges, ipa_accepts, challenges_from_transcript, invert_all,
    lemma_verifier_draws_the_challenges_of_the_prover,
};
use self::transcript::initial_transcript;
use self::polynomial::{compute_g, binary_spec};

verus! {

/// A block of aPlonK: a shard, the commitment $C_G$ of the polynomials, the
/// evaluation $\hat{v}$ and the commitment $\hat{\mu}$ of their combination,
/// and the three proofs.
#[derive(Clone, Debug, PartialEq)]
pub struct Block {
    pub shard: Shard,
    pub com_f: Gt,
    pub v_hat: Scalar,
    pub mu_hat: G1,
    pub kzg_proof: kzg10::Proof,
    pub ipa_proof: ipa::Proof,
    pub aplonk_proof: G2,
}

/// The commitment of aPlonK, which holds nothing more than its engine.
#[derive(Clone, Debug, PartialEq, Default)]
pub struct Commitment {}

/// The parameters of aPlonK: a trusted KZG setup and the parameters of the
/// inner product argument.
#[derive(Clone, Debug, PartialEq)]
pub struct SetupParams {
    pub kzg: UniversalParams,
    pub ipa: Params,
}

/// What a verifier needs: the KZG verifier key, $[\tau]_1$ and the two
/// generators.
#[derive(Clone, Debug, PartialEq, Default)]
pub struct VerifierKey {
    pub vk_psi: kzg10::VerifierKey,
    pub tau_1: G1,
    pub g1: G1,
    pub g2: G2,
}

impl SetupParams {
    /// All the points decode.
    pub open spec fn wf(&self) -> bool {
        &&& self.kzg.wf()
        &&& self.ipa.tau_1.wf()
        &&& g2s_wf(self.ipa.ck_tau@)
    }
}

/// The key of the inner product argument is made of the multiples of `h`
/// by the first `n` powers of `tau`, and $[\tau]_1$ is the multiple of `g`
/// by `tau`.
pub open spec fn is_ipa_key(ck_tau: Seq<Seq<u8>>, tau_1: Seq<u8>, g: Seq<u8>, h: Seq<u8>, tau: nat, n: nat) -> bool {
    &&& ck_tau == Seq::new(n, |i: int| g2_multiple_of(h, fpow(tau, i as nat)))
    &&& tau_1 == g1_multiple_of(g, tau)
}

/// Creates a trusted KZG setup for polynomials up to degree `degree_bound`
/// and the parameters of the inner product argument for `nb_polynomials`
/// polynomials, with a secret $\tau$, all drawn from `rng`.
///
/// An error is returned for the degree zero.
pub fn setup(degree_bound: usize, nb_polynomials: usize, rng: &mut ark_std::rand::rngs::StdRng) -> (r: Result<SetupParams, KomodoError>)
    ensures
        r is Err <==> degree_bound < 1,
        r matches Err(e) ==> e == KomodoError::DegreeIsZero,
        r matches Ok(s) ==> {
            &&& s.wf()
            &&& is_kzg_setup(s.kzg, degree_bound as nat)
            &&& exists|tau: nat| tau < modulus_p() && #[trigger] is_ipa_key(
                g2_views(s.ipa.ck_tau@),
                s.ipa.tau_1@,
                s.kzg.powers_of_g@[0]@,
                s.kzg.h@,
                tau,
                nb_polynomials as nat,
            )
        },
{
    let params = match ark_kzg_setup(degree_bound, rng) {
        Some(params) => params,
        None => {
            return Err(KomodoError::DegreeIsZero);
        },
    };
    proof {
        assert(params.powers_of_g@[0].wf());
    }
    let g_1 = params.powers_of_g[0].clone_point();
    let g_2 = params.h.clone_point();
    let tau = Scalar::rand(rng);
    let taus = powers_of(tau, nb_polynomials);
    let ghost n = taus@.len();
    let mut ck_tau: Vec<G2> = Vec::new();
    let mut i: usize = 0;
    while i < taus.len()
        invariant
            g_2.wf(),
            g_2@ == params.h@,
            tau.wf(),
            all_wf(taus@),
            n == taus@.len(),
            forall|j: int| 0 <= j < taus@.len() ==> #[trigger] taus@[j]@ == fpow(tau@, j as nat),
            i <= taus@.len(),
            ck_tau@.len() == i,
            g2s_wf(ck_tau@),
            forall|j: int| 0 <= j < i ==> #[trigger] ck_tau@[j]@ == g2_multiple_of(params.h@, fpow(tau@, j as nat)),
        decreases taus@.len() - i,
    {
        ck_tau.push(ark_g2_mul(&g_2, &taus[i]));
        i = i + 1;
    }
    let tau_1 = ark_g1_mul(&g_1, &tau);
    let r = SetupParams { kzg: params, ipa: Params { ck_tau, tau_1 } };
    proof {
        assert(g2_views(r.ipa.ck_tau@) =~= Seq::new(n, |i: int| g2_multiple_of(r.kzg.h@, fpow(tau@, i as nat))));
        assert(n == nb_polynomials as nat);
        assert(is_ipa_key(g2_views(r.ipa.ck_tau@), r.ipa.tau_1@, r.kzg.powers_of_g@[0]@, r.kzg.h@, tau@, nb_polynomials as nat));
        assert(r.wf());
    }
    Ok(r)
}

/// The largest degree of the polynomials, zero when there are none.
pub open spec fn max_degree(polynomials: Seq<Seq<nat>>) -> nat
    decreases polynomials.len(),
{
    if polynomials.len() == 0 {
        0
    } else {
        let d = degree_of(polynomials.last());
        let m = max_degree(polynomials.drop_last());
        if d > m { d } else { m }
    }
}

proof fn lemma_max_degree(polynomials: Seq<Seq<nat>>, i: int)
    requires
        0 <= i < polynomials.len(),
    ensures
        degree_of(polynomials[i]) <= max_degree(polynomials),
    decreases polynomials.len(),
{
    if i < polynomials.len() - 1 {
        lemma_max_degree(polynomials.drop_last(), i);
    }
}

/// The largest degree of the polynomials, zero when there are none.
fn supported_degree(polynomials: &Vec<Polynomial>) -> (r: usize)
    requires
        forall|i: int| 0 <= i < polynomials@.len() ==> #[trigger] polynomials@[i].wf(),
    ensures
        r == max_degree(poly_views(polynomials@)),
{
    let mut m: usize = 0;
    let mut i: usize = 0;
    while i < polynomials.len()
        invariant
            forall|i: int| 0 <= i < polynomials@.len() ==> #[trigger] polynomials@[i].wf(),
            i <= polynomials@.len(),
            m == max_degree(poly_views(polynomials@).take(i as int)),
        decreases polynomials@.len() - i,
    {
        let _ = polynomials[i].coeffs.len();
        let d = polynomials[i].degree();
        proof {
            let s = poly_views(polynomials@).take(i + 1);
            assert(s.drop_last() =~= poly_views(polynomials@).take(i as int));
            assert(s.last() == polynomials@[i as int]@);
        }
        if d > m {
            m = d;
        }
        i = i + 1;
    }
    proof {
        assert(poly_views(polynomials@).take(i as int) =~= poly_views(polynomials@));
    }
    m
}

/// `e` is the error of a setup that holds too few points.
pub open spec fn is_setup_error(e: KomodoError) -> bool {
    e matches KomodoError::Other(t) && t@ == "setup error"@
}

fn setup_error() -> (e: KomodoError)
    ensures
        is_setup_error(e),
{
    KomodoError::Other(String::from_str("setup error"))
}

/// Commits the polynomials $f_i$, one KZG commitment $\mu_i$ each with the
/// setup trimmed to their largest degree, and folds these into
/// $C_G = \sum_i e(\mu_i, ck_i)$ with the key of the inner product argument.
///
/// An error is returned when that key has fewer points than there are
/// polynomials.
pub fn commit(polynomials: Vec<Polynomial>, setup: SetupParams) -> (r: Result<(Vec<G1>, Gt), KomodoError>)
    requires
        setup.wf(),
        forall|i: int| 0 <= i < polynomials@.len() ==> #[trigger] polynomials@[i].wf(),
        setup.ipa.ck_tau@.len() >= polynomials@.len() ==> {
            &&& max_degree(poly_views(polynomials@)) < setup.kzg.powers_of_g@.len()
            &&& max_degree(poly_views(polynomials@)) < setup.kzg.powers_of_gamma_g@.len()
        },
    ensures
        ({
            let d = max_degree(poly_views(polynomials@));
            match r {
                Ok((mu, com_f)) => {
                    &&& setup.ipa.ck_tau@.len() >= polynomials@.len()
                    &&& mu@.len() == polynomials@.len()
                    &&& g1s_wf(mu@)
                    &&& com_f.wf()
                    &&& forall|i: int| 0 <= i < mu@.len() ==> #[trigger] mu@[i]@ == kzg_commitment_of(
                        encodings(setup.kzg.powers_of_g@.take((d + 1) as int)),
                        polynomials@[i]@,
                    )
                    &&& com_f@ == pairing_sum(g1_views(mu@), g2_views(setup.ipa.ck_tau@), polynomials@.len() as nat)
                },
                Err(e) => setup.ipa.ck_tau@.len() < polynomials@.len() && is_setup_error(e),
            }
        }),
{
    let d = supported_degree(&polynomials);
    if setup.ipa.ck_tau.len() < polynomials.len() {
        return Err(setup_error());
    }
    let ck_tau = setup.ipa.ck_tau;
    let (powers, _) = trim(setup.kzg, d);
    proof {
        assert(encodings(powers.powers_of_g@).len() == powers.powers_of_g@.len());
    }
    if powers.powers_of_g.len() <= d {
        return Err(setup_error());
    }
    let mu = match ark_commit(&powers, polynomials.as_slice()) {
        Ok(mu) => mu,
        Err(t) => {
            proof {
                let i = choose|i: int| 0 <= i < polynomials@.len() && {
                    &&& forall|j: int| 0 <= j < i ==> degree_of(#[trigger] polynomials@[j]@) + 1 <= powers.powers_of_g@.len()
                    &&& degree_of(#[trigger] polynomials@[i]@) + 1 > powers.powers_of_g@.len()
                    &&& t@ == kzg10::too_many_coefficients_text(degree_of(polynomials@[i]@) + 1, powers.powers_of_g@.len() as nat)
                };
                lemma_max_degree(poly_views(polynomials@), i);
            }
            return Err(KomodoError::Other(t));
        },
    };
    proof {
        assert forall|i: int| 0 <= i < mu@.len() implies #[trigger] mu@[i].wf() && mu@[i]@ == kzg_commitment_of(
            encodings(powers.powers_of_g@),
            polynomials@[i]@,
        ) by {
            assert(degree_of(polynomials@[i]@) + 1 <= powers.powers_of_g@.len());
        }
    }
    let com_f = scalar_product_pairing(mu.as_slice(), ck_tau.as_slice());
    Ok((mu, com_f))
}

proof fn lemma_combination_degree(q: Seq<nat>, polynomials: Seq<Seq<nat>>, r: nat)
    requires
        is_combination(q, polynomials, r),
    ensures
        degree_of(q) <= max_degree(polynomials),
{
    let m = max_degree(polynomials);
    if q.len() > m + 1 {
        let j = q.len() - 1;
        assert forall|i: int| 0 <= i < polynomials.len() implies #[trigger] coeff(polynomials[i], j) == 0 by {
            lemma_max_degree(polynomials, i);
        }
        lemma_sum_zero(polynomials.len(), |i: int| (fpow(r, i as nat) * coeff(polynomials[i], j)) as int);
        assert(coeff(q, j) == 0);
    }
}

/// The challenge $r$ of a block at `pt`: the hash of the encodings of $C_G$
/// and of `pt`, as a field element.
pub open spec fn block_challenge(com_f: Seq<u8>, pt: nat) -> nat {
    le_value(sha256_digest(com_f + le_bytes(pt, 32))) % modulus_p()
}

fn challenge_of(com_f: &Gt, pt: &Scalar) -> (r: Scalar)
    requires
        pt.wf(),
    ensures
        r.wf(),
        r@ == block_challenge(com_f@, pt@),
{
    let mut bytes = com_f.to_bytes();
    let mut tail = pt.to_bytes_le();
    bytes.append(&mut tail);
    let hash = sha256(bytes.as_slice());
    Scalar::from_le_bytes_mod_order(hash.as_slice())
}

/// The challenge $\rho$ of a proof of the inner product argument: the hash
/// of its serialization, as a field element.
pub open spec fn proof_challenge(proof: ipa::Proof) -> nat {
    le_value(sha256_digest(proof_bytes(proof))) % modulus_p()
}

fn proof_challenge_of(proof: &ipa::Proof) -> (r: Scalar)
    ensures
        r.wf(),
        r@ == proof_challenge(*proof),
{
    let bytes = proof.to_bytes();
    let hash = sha256(bytes.as_slice());
    Scalar::from_le_bytes_mod_order(hash.as_slice())
}

/// The powers $1, r, \ldots$ that combine `n` polynomials.
pub open spec fn block_powers(r: nat, n: nat) -> Seq<nat> {
    Seq::new(n, |i: int| fpow(r, i as nat))
}

/// $\hat{\mu} = \sum_i r^i \mu_i$ for a block at `pt`.
pub open spec fn block_mu_hat(n: nat, mu: Seq<Seq<u8>>, com_f: Seq<u8>, pt: nat) -> Seq<u8> {
    g1_combination(mu, block_powers(block_challenge(com_f, pt), n), common_len(mu.len(), n))
}

/// The state of the inner product argument before its first round, for a
/// block at `pt`.
pub open spec fn block_round(n: nat, mu: Seq<Seq<u8>>, ck: Seq<Seq<u8>>, com_f: Seq<u8>, pt: nat) -> Round {
    first_round(n, ck, com_f, block_challenge(com_f, pt), block_mu_hat(n, mu, com_f, pt), mu)
}

/// The challenges $u_j$ of the prover, by index: the challenge of index $j$
/// is that of round $\kappa - 1 - j$.
pub open spec fn prover_challenges(s0: Round, kappa: nat) -> Seq<nat> {
    Seq::new(kappa, |j: int| round_u(rounds(s0, (kappa - 1 - j) as nat)))
}

/// The block of a shard at `pt` gets built: the number of polynomials is a
/// power of two and no challenge of the argument is zero.
pub open spec fn block_succeeds(n: nat, mu: Seq<Seq<u8>>, ck: Seq<Seq<u8>>, com_f: Seq<u8>, pt: nat) -> bool {
    &&& is_pow2_exists(n as int)
    &&& challenges_invertible(block_round(n, mu, ck, com_f, pt), nb_rounds(n))
}

/// `e` is the error of the argument for the block of a shard at `pt`.
pub open spec fn block_error(e: KomodoError, n: nat, mu: Seq<Seq<u8>>, ck: Seq<Seq<u8>>, com_f: Seq<u8>, pt: nat) -> bool {
    let s0 = block_round(n, mu, ck, com_f, pt);
    ||| !is_pow2_exists(n as int) && is_count_error(e, n)
    ||| is_pow2_exists(n as int) && is_inverse_error(e) && exists|t: nat| t < nb_rounds(n) && challenges_invertible(s0, t)
        && #[trigger] round_u(rounds(s0, t)) == 0
}

impl Block {
    /// The field elements are canonical and the points decode.
    pub open spec fn wf(&self) -> bool {
        &&& self.shard.wf()
        &&& self.com_f.wf()
        &&& self.v_hat.wf()
        &&& self.mu_hat.wf()
        &&& self.kzg_proof.w.wf()
        &&& gts_wf(self.ipa_proof.l_g@) && gts_wf(self.ipa_proof.r_g@)
        &&& g1s_wf(self.ipa_proof.l_r@) && g1s_wf(self.ipa_proof.r_r@)
        &&& self.ipa_proof.mu_0.wf() && self.ipa_proof.ck_tau_0.wf()
        &&& self.aplonk_proof.wf()
    }
}

/// `b` is the block that [`prove`] builds for a shard at `pt`, with the
/// key $ck$ of the argument and the powers of a trusted setup.
pub open spec fn is_block(
    b: Block,
    shard: ShardView,
    pt: nat,
    polynomials: Seq<Seq<nat>>,
    mu: Seq<Seq<u8>>,
    com_f: Seq<u8>,
    ck: Seq<Seq<u8>>,
    powers_of_g: Seq<Seq<u8>>,
) -> bool {
    let n = polynomials.len();
    let r = block_challenge(com_f, pt);
    let s0 = block_round(n, mu, ck, com_f, pt);
    let kappa = nb_rounds(n);
    let h = witness_of(g_polynomial(n, kappa, prover_challenges(s0, kappa)), proof_challenge(b.ipa_proof));
    &&& b.shard@ == shard
    &&& b.com_f@ == com_f
    &&& b.v_hat@ == scalar_product_spec(Seq::new(n, |i: int| eval_spec(polynomials[i], pt)), block_powers(r, n))
    &&& b.mu_hat@ == block_mu_hat(n, mu, com_f, pt)
    &&& b.kzg_proof.random_v is None
    &&& b.kzg_proof.w@ == kzg_commitment_of(powers_of_g, witness_of(combination(polynomials, r), pt))
    &&& exists|u: Seq<Scalar>| #[trigger] is_ipa_proof(b.ipa_proof, u, s0, kappa)
    &&& b.aplonk_proof@ == g2_combination(ck, h, h.len())
}

/// What [`prove`] gives for the polynomials $f$ with commitments $\mu$ and
/// $C_G$, and for shards at the points: a block for each shard, or the
/// error of the first shard whose argument fails. The KZG proofs use the
/// setup trimmed to the largest degree of the polynomials.
pub open spec fn prove_outcome(
    r: Result<Vec<Block>, KomodoError>,
    polynomials: Seq<Seq<nat>>,
    shards: Seq<ShardView>,
    points: Seq<nat>,
    mu: Seq<Seq<u8>>,
    com_f: Seq<u8>,
    params: SetupParams,
) -> bool {
    let n = polynomials.len();
    let ck = g2_views(params.ipa.ck_tau@);
    let d = max_degree(polynomials);
    let powers_of_g = encodings(params.kzg.powers_of_g@.take((d + 1) as int));
    match r {
        Ok(blocks) => {
            &&& blocks@.len() == shards.len()
            &&& forall|i: int| #![trigger blocks@[i]] 0 <= i < blocks@.len() ==> {
                &&& block_succeeds(n, mu, ck, com_f, points[i])
                &&& blocks@[i].wf()
                &&& is_block(blocks@[i], shards[i], points[i], polynomials, mu, com_f, ck, powers_of_g)
            }
        },
        Err(e) => exists|i: int| 0 <= i < shards.len() && {
            &&& forall|j: int| 0 <= j < i ==> #[trigger] block_succeeds(n, mu, ck, com_f, points[j])
            &&& block_error(e, n, mu, ck, com_f, points[i])
        },
    }
}

/// The block of one shard at `pt`.
fn prove_block(
    polynomials: &Vec<Polynomial>,
    powers: &kzg10::Powers,
    mu: &Vec<G1>,
    com_f: &Gt,
    ck_tau: &Vec<G2>,
    shard: &Shard,
    pt: &Scalar,
) -> (r: Result<Block, KomodoError>)
    requires
        forall|i: int| 0 <= i < polynomials@.len() ==> #[trigger] polynomials@[i].wf(),
        powers.wf(),
        max_degree(poly_views(polynomials@)) < powers.powers_of_g@.len(),
        g1s_wf(mu@),
        com_f.wf(),
        g2s_wf(ck_tau@),
        shard.wf(),
        pt.wf(),
        is_pow2_exists(polynomials@.len() as int) ==> mu@.len() >= polynomials@.len() && ck_tau@.len() >= polynomials@.len(),
        polynomials@.len() != 1,
    ensures
        ({
            let n = polynomials@.len() as nat;
            let ck = g2_views(ck_tau@);
            match r {
                Ok(b) => {
                    &&& block_succeeds(n, g1_views(mu@), ck, com_f@, pt@)
                    &&& b.wf()
                    &&& is_block(
                        b,
                        shard@,
                        pt@,
                        poly_views(polynomials@),
                        g1_views(mu@),
                        com_f@,
                        ck,
                        encodings(powers.powers_of_g@),
                    )
                },
                Err(e) => block_error(e, n, g1_views(mu@), ck, com_f@, pt@),
            }
        }),
{
    let ghost n = polynomials@.len() as nat;
    let ghost polys = poly_views(polynomials@);
    let ghost muv = g1_views(mu@);
    let ghost ck = g2_views(ck_tau@);
    proof {
        lemma_modulus_facts();
        is_pow2_equiv(n as int);
    }
    let mut evals: Vec<Scalar> = Vec::new();
    let mut i: usize = 0;
    while i < polynomials.len()
        invariant
            forall|i: int| 0 <= i < polynomials@.len() ==> #[trigger] polynomials@[i].wf(),
            pt.wf(),
            i <= polynomials@.len(),
            evals@.len() == i,
            all_wf(evals@),
            forall|t: int| 0 <= t < i ==> #[trigger] evals@[t]@ == eval_spec(polynomials@[t]@, pt@),
        decreases polynomials@.len() - i,
    {
        evals.push(polynomials[i].evaluate(pt));
        i = i + 1;
    }
    let r = challenge_of(com_f, pt);
    let r_vec = powers_of(r, polynomials.len());
    let f = scalar_product_polynomial(r_vec.as_slice(), polynomials.as_slice());
    proof {
        assert forall|k: int| #[trigger] coeff(f@, k) == (sum(
            polys.len(),
            |i: int| (values(r_vec@)[i] * coeff(polys[i], k)) as int,
        ) % (modulus_p() as int)) as nat by {
            lemma_sum_ext(
                polys.len(),
                |i: int| (r_vec@[i]@ * coeff(polynomials@[i]@, k)) as int,
                |i: int| (values(r_vec@)[i] * coeff(polys[i], k)) as int,
            );
        }
        lemma_combination(f@, polys, r@, values(r_vec@));
        lemma_combination_degree(f@, polys, r@);
        assert(values(r_vec@) =~= block_powers(r@, n));
    }
    let mu_hat = scalar_product_g1(mu.as_slice(), r_vec.as_slice());
    let v_hat = scalar_product(evals.as_slice(), r_vec.as_slice());
    let kzg_proof = match kzg10::open(powers, &f, pt) {
        Ok(proof) => proof,
        Err(t) => {
            let mut text = String::from_str("ark error: ");
            text.append(t.as_str());
            return Err(KomodoError::Other(text));
        },
    };
    let ghost s0 = block_round(n, muv, ck, com_f@, pt@);
    proof {
        assert(s0 == first_round(n, g2_views(ck_tau@), com_f@, r@, mu_hat@, g1_views(mu@)));
    }
    let (ipa_proof, u) = match ipa::prove(polynomials.len(), ck_tau.as_slice(), com_f, r, &mu_hat, mu.as_slice()) {
        Ok(res) => res,
        Err(e) => {
            return Err(e);
        },
    };
    proof {
        is_pow2_equiv(n as int);
    }
    let kappa = ipa::log2(polynomials.len());
    proof {
        lemma_nb_rounds(n, kappa as nat);
    }
    let u_inv = match invert_all(&u) {
        Some(v) => v,
        None => {
            proof {
                let i = choose|i: int| 0 <= i < u@.len() && !(u@[i]@ != 0);
                let k = (kappa - 1 - i) as nat;
                assert(rounds(s0, k) == rounds(s0, k));
                assert(round_u(rounds(s0, k)) != 0);
            }
            return Err(KomodoError::Other(String::from_str("EllipticInverseError")));
        },
    };
    proof {
        assert(values(u_inv@).len() == u_inv@.len());
    }
    proof {
        assert forall|x: nat| x < n implies #[trigger] binary_spec(x, kappa as nat).len() <= u@.len() by {
            assert(pow2(kappa as nat) == n);
            if kappa == 0 {
                assert(n == 1) by {
                    vstd::arithmetic::power2::lemma2_to64();
                }
            }
            lemma_bit_len_below(x, kappa as nat);
        }
    }
    let g = compute_g(polynomials.len(), kappa, u.as_slice(), u_inv.as_slice());
    let rho = proof_challenge_of(&ipa_proof);
    let h = ark_witness_polynomial(&g, &rho);
    proof {
        lemma_trim(Seq::new(n, |x: int| polynomial::g_coefficient(x as nat, kappa as nat, values(u@), values(u_inv@))));
    }
    let aplonk_proof = scalar_product_g2(ck_tau.as_slice(), h.coeffs.as_slice());
    let block = Block {
        shard: shard.clone_shard(),
        com_f: com_f.clone_point(),
        v_hat,
        mu_hat,
        kzg_proof,
        ipa_proof,
        aplonk_proof,
    };
    proof {
        assert(is_ipa_proof(block.ipa_proof, u@, s0, kappa as nat));
        assert(values(u@) =~= prover_challenges(s0, kappa as nat));
        assert(values(u_inv@) =~= Seq::new(values(u@).len(), |i: int| finv(values(u@)[i])));
        assert(Seq::new(n, |i: int| eval_spec(polys[i], pt@)) =~= values(evals@));
    }
    Ok(block)
}

/// Proves each shard at its evaluation point: the combination $f$ of the
/// polynomials with the powers of the challenge $r$ of the block is opened
/// with KZG, the combination $\hat{\mu}$ of their commitments is proven by
/// the inner product argument, and the polynomial $g$ of its challenges is
/// opened at the challenge $\rho$ of that proof with the key $ck$.
///
/// An error is returned, at the first shard where the argument fails, when
/// the number of polynomials is not a power of two or a challenge of the
/// argument is zero.
pub fn prove(
    commit: (Vec<G1>, Gt),
    polynomials: Vec<Polynomial>,
    shards: Vec<Shard>,
    points: Vec<Scalar>,
    params: SetupParams,
) -> (r: Result<Vec<Block>, KomodoError>)
    requires
        shards@.len() == points@.len(),
        params.wf(),
        g1s_wf(commit.0@),
        commit.1.wf(),
        forall|i: int| 0 <= i < polynomials@.len() ==> #[trigger] polynomials@[i].wf(),
        forall|i: int| 0 <= i < shards@.len() ==> #[trigger] shards@[i].wf(),
        all_wf(points@),
        max_degree(poly_views(polynomials@)) < params.kzg.powers_of_g@.len(),
        max_degree(poly_views(polynomials@)) < params.kzg.powers_of_gamma_g@.len(),
        is_pow2_exists(polynomials@.len() as int) ==> commit.0@.len() >= polynomials@.len()
            && params.ipa.ck_tau@.len() >= polynomials@.len(),
        shards@.len() > 0 ==> polynomials@.len() != 1,
    ensures
        prove_outcome(
            r,
            poly_views(polynomials@),
            shards@.map_values(|s: Shard| s@),
            values(points@),
            g1_views(commit.0@),
            commit.1@,
            params,
        ),
{
    let ghost params0 = params;
    let (mu, com_f) = commit;
    let ghost n = polynomials@.len() as nat;
    let ghost polys = poly_views(polynomials@);
    let ghost muv = g1_views(mu@);
    let ghost ck = g2_views(params.ipa.ck_tau@);
    let ghost sv = shards@.map_values(|s: Shard| s@);
    let ghost pv = values(points@);
    let d = supported_degree(&polynomials);
    let ghost pg = encodings(params.kzg.powers_of_g@.take(d + 1));
    let (powers, _) = trim(params.kzg, d);
    let ck_tau = params.ipa.ck_tau;
    proof {
        assert(encodings(powers.powers_of_g@).len() == powers.powers_of_g@.len());
    }
    let mut blocks: Vec<Block> = Vec::new();
    let mut j: usize = 0;
    while j < shards.len()
        invariant
            shards@.len() == points@.len(),
            n == polynomials@.len(),
            polys == poly_views(polynomials@),
            muv == g1_views(mu@),
            ck == g2_views(ck_tau@),
            sv == shards@.map_values(|s: Shard| s@),
            pv == values(points@),
            ck == g2_views(params0.ipa.ck_tau@),
            muv == g1_views(commit.0@),
            com_f@ == commit.1@,
            params0 == params,
            pg == encodings(params0.kzg.powers_of_g@.take(d + 1)),
            g2s_wf(ck_tau@),
            g1s_wf(mu@),
            com_f.wf(),
            forall|i: int| 0 <= i < polynomials@.len() ==> #[trigger] polynomials@[i].wf(),
            forall|i: int| 0 <= i < shards@.len() ==> #[trigger] shards@[i].wf(),
            all_wf(points@),
            d == max_degree(polys),
            powers.wf(),
            powers.powers_of_g@.len() == d + 1,
            encodings(powers.powers_of_g@) == pg,
            is_pow2_exists(n as int) ==> mu@.len() >= n && ck_tau@.len() >= n,
            shards@.len() > 0 ==> n != 1,
            j <= shards@.len(),
            blocks@.len() == j,
            forall|i: int| 0 <= i < j ==> #[trigger] block_succeeds(n, muv, ck, com_f@, pv[i]),
            forall|i: int| #![trigger blocks@[i]] 0 <= i < j ==> {
                &&& block_succeeds(n, muv, ck, com_f@, pv[i])
                &&& blocks@[i].wf()
                &&& is_block(blocks@[i], sv[i], pv[i], polys, muv, com_f@, ck, pg)
            },
        decreases shards@.len() - j,
    {
        proof {
            assert(pv[j as int] == points@[j as int]@);
            assert(sv[j as int] == shards@[j as int]@);
            assert(shards@[j as int].wf());
        }
        match prove_block(&polynomials, &powers, &mu, &com_f, &ck_tau, &shards[j], &points[j]) {
            Ok(block) => {
                let ghost old_blocks = blocks@;
                blocks.push(block);
                proof {
                    assert forall|i: int| #![trigger blocks@[i]] 0 <= i < j + 1 implies {
                        &&& block_succeeds(n, muv, ck, com_f@, pv[i])
                        &&& blocks@[i].wf()
                        &&& is_block(blocks@[i], sv[i], pv[i], polys, muv, com_f@, ck, pg)
                    } by {
                        if i < j {
                            assert(blocks@[i] == old_blocks[i]);
                        }
                    }
                }
            },
            Err(e) => {
                proof {
                    assert(0 <= j < sv.len() && {
                        &&& forall|i: int| 0 <= i < j ==> #[trigger] block_succeeds(n, muv, ck, com_f@, pv[i])
                        &&& block_error(e, n, muv, ck, com_f@, pv[j as int])
                    });
                    assert(prove_outcome(Err(e), polys, sv, pv, muv, com_f@, params0));
                }
                return Err(e);
            },
        }
        j = j + 1;
    }
    proof {
        assert(sv.len() == shards@.len());
        assert(blocks@.len() == sv.len());
        assert(prove_outcome(Ok(blocks), polys, sv, pv, muv, com_f@, params0));
    }
    Ok(blocks)
}

/// The KZG check of a block at `pt`:
/// $e(\hat{\mu} - [\hat{v}] g, h) = e(w, [\beta] h - [pt] h)$.
pub open spec fn psi_holds(b: Block, pt: nat, vk: kzg10::VerifierKey) -> bool {
    pairing_of(g1_difference_of(b.mu_hat@, g1_multiple_of(vk.g@, b.v_hat@)), vk.h@) == pairing_of(
        b.kzg_proof.w@,
        g2_difference_of(vk.beta_h@, g2_multiple_of(vk.h@, pt)),
    )
}

/// The number of polynomials behind a shard: the size of the data over
/// $k$ and over the 31 bytes that a field element holds.
pub open spec fn block_nb_polynomials(shard: ShardView) -> nat {
    shard.size / shard.k / 31
}

/// The challenges $u_j$ that the verifier draws for a block at `pt`.
pub open spec fn block_verifier_challenges(b: Block, pt: nat) -> Seq<nat> {
    let r = block_challenge(b.com_f@, pt);
    verifier_challenges(initial_transcript(b.com_f@, r, b.mu_hat@), b.ipa_proof, nb_rounds(block_nb_polynomials(b.shard@)))
}

/// The check of the opening of $g$ at $\rho$ for a block at `pt`:
/// $e([\tau]_1 - [\rho] g_1, \pi) = e([1] g_1, ck_0 - [g(\rho)] g_2)$.
pub open spec fn tau_holds(b: Block, pt: nat, tau_1: Seq<u8>, g_1: Seq<u8>, g_2: Seq<u8>) -> bool {
    let nb = block_nb_polynomials(b.shard@);
    let rho = proof_challenge(b.ipa_proof);
    let v_rho = eval_spec(g_polynomial(nb, nb_rounds(nb), block_verifier_challenges(b, pt)), rho);
    pairing_of(g1_difference_of(tau_1, g1_multiple_of(g_1, rho)), b.aplonk_proof@) == pairing_of(
        g1_multiple_of(g_1, 1),
        g2_difference_of(b.ipa_proof.ck_tau_0@, g2_multiple_of(g_2, v_rho)),
    )
}

/// The three checks of a block at `pt`: the KZG check, the inner product
/// argument, and the opening of $g$ at $\rho$.
pub open spec fn block_accepted(b: Block, pt: nat, vk: kzg10::VerifierKey, tau_1: Seq<u8>, g_1: Seq<u8>, g_2: Seq<u8>) -> bool {
    let nb = block_nb_polynomials(b.shard@);
    &&& psi_holds(b, pt, vk)
    &&& ipa_accepts(nb, None, b.com_f@, block_challenge(b.com_f@, pt), b.mu_hat@, b.ipa_proof, nb_rounds(nb))
    &&& tau_holds(b, pt, tau_1, g_1, g_2)
}

/// A block is accepted only if its opening $\pi$ of $g$ at $\rho$ checks:
/// $e([\tau]_1 - [\rho] g_1, \pi) = e([1] g_1, ck_0 - [g(\rho)] g_2)$, for
/// $\rho$ the challenge of the proof and $g$ the polynomial of the challenges
/// that the verifier draws.
pub proof fn lemma_accepted_block_opens_g(
    b: Block,
    pt: nat,
    vk: kzg10::VerifierKey,
    tau_1: Seq<u8>,
    g_1: Seq<u8>,
    g_2: Seq<u8>,
)
    requires
        block_accepted(b, pt, vk, tau_1, g_1, g_2),
    ensures
        ({
            let rho = proof_challenge(b.ipa_proof);
            let g = g_polynomial(
                block_nb_polynomials(b.shard@),
                nb_rounds(block_nb_polynomials(b.shard@)),
                block_verifier_challenges(b, pt),
            );
            pairing_of(g1_difference_of(tau_1, g1_multiple_of(g_1, rho)), b.aplonk_proof@)
                == pairing_of(g1_multiple_of(g_1, 1), g2_difference_of(b.ipa_proof.ck_tau_0@, g2_multiple_of(g_2, eval_spec(g, rho))))
        }),
{
}

/// Only the opening check reads the opening $\pi$ of a block: a block that
/// differs from an accepted one in its opening alone is accepted exactly when
/// its opening pairs with $[\tau]_1 - [\rho] g_1$ as that of the accepted one
/// does; any other opening is refused.
pub proof fn lemma_opening_decides(
    b: Block,
    b2: Block,
    pt: nat,
    vk: kzg10::VerifierKey,
    tau_1: Seq<u8>,
    g_1: Seq<u8>,
    g_2: Seq<u8>,
)
    requires
        block_accepted(b, pt, vk, tau_1, g_1, g_2),
        b2.shard == b.shard,
        b2.com_f == b.com_f,
        b2.v_hat == b.v_hat,
        b2.mu_hat == b.mu_hat,
        b2.kzg_proof == b.kzg_proof,
        b2.ipa_proof == b.ipa_proof,
    ensures
        ({
            let x = g1_difference_of(tau_1, g1_multiple_of(g_1, proof_challenge(b.ipa_proof)));
            block_accepted(b2, pt, vk, tau_1, g_1, g_2) == (pairing_of(x, b2.aplonk_proof@) == pairing_of(x, b.aplonk_proof@))
        }),
{
    assert(block_verifier_challenges(b2, pt) == block_verifier_challenges(b, pt));
}

/// Only the KZG check reads the KZG proof $w$ of a block: a block that
/// differs from an accepted one in $w$ alone is accepted exactly when
/// $e(w', [\beta] h - [pt] h) = e(w, [\beta] h - [pt] h)$; any other proof is
/// refused.
pub proof fn lemma_kzg_proof_decides(
    b: Block,
    b2: Block,
    pt: nat,
    vk: kzg10::VerifierKey,
    tau_1: Seq<u8>,
    g_1: Seq<u8>,
    g_2: Seq<u8>,
)
    requires
        block_accepted(b, pt, vk, tau_1, g_1, g_2),
        b2.shard == b.shard,
        b2.com_f == b.com_f,
        b2.v_hat == b.v_hat,
        b2.mu_hat == b.mu_hat,
        b2.kzg_proof.random_v == b.kzg_proof.random_v,
        b2.ipa_proof == b.ipa_proof,
        b2.aplonk_proof == b.aplonk_proof,
    ensures
        ({
            let y = g2_difference_of(vk.beta_h@, g2_multiple_of(vk.h@, pt));
            block_accepted(b2, pt, vk, tau_1, g_1, g_2) == (pairing_of(b2.kzg_proof.w@, y) == pairing_of(b.kzg_proof.w@, y))
        }),
{
    assert(block_verifier_challenges(b2, pt) == block_verifier_challenges(b, pt));
}

/// The verifier of a block that [`prove`] builds, when the size of its shard
/// gives back the number of polynomials, draws the challenges of the prover,
/// so that it evaluates at $\rho$ the polynomial $g$ whose opening the block
/// holds.
pub proof fn lemma_verifier_draws_the_challenges_of_the_block(
    b: Block,
    shard: ShardView,
    pt: nat,
    polynomials: Seq<Seq<nat>>,
    mu: Seq<Seq<u8>>,
    com_f: Seq<u8>,
    ck: Seq<Seq<u8>>,
    powers_of_g: Seq<Seq<u8>>,
)
    requires
        is_block(b, shard, pt, polynomials, mu, com_f, ck, powers_of_g),
        block_nb_polynomials(shard) == polynomials.len(),
    ensures
        block_verifier_challenges(b, pt) == prover_challenges(
            block_round(polynomials.len(), mu, ck, com_f, pt),
            nb_rounds(polynomials.len()),
        ),
{
    let n = polynomials.len();
    let s0 = block_round(n, mu, ck, com_f, pt);
    let kappa = nb_rounds(n);
    let u = choose|u: Seq<Scalar>| #[trigger] is_ipa_proof(b.ipa_proof, u, s0, kappa);
    lemma_verifier_draws_the_challenges_of_the_prover(b.ipa_proof, u, s0, kappa);
    assert forall|j: int| 0 <= j < kappa implies #[trigger] values(u)[j] == prover_challenges(s0, kappa)[j] by {
        let t = (kappa - 1 - j) as nat;
        assert(rounds(s0, t) == rounds(s0, t));
    }
    assert(values(u) =~= prover_challenges(s0, kappa));
}

/// Verifies a block at its evaluation point: the KZG opening of the
/// combination of the polynomials, then the inner product argument without
/// its key check, then the opening of $g$ at $\rho$.
///
/// The errors of the inner product argument are returned: when the number of
/// polynomials is not a power of two, or when a challenge is zero.
pub fn verify(
    block: &Block,
    pt: Scalar,
    vk_psi: &kzg10::VerifierKey,
    tau_1: &G1,
    g_1: &G1,
    g_2: &G2,
) -> (res: Result<bool, KomodoError>)
    requires
        block.wf(),
        pt.wf(),
        vk_psi.wf(),
        tau_1.wf(),
        g_1.wf(),
        g_2.wf(),
        block.shard.k != 0,
        block_nb_polynomials(block.shard@) != 1,
        is_pow2_exists(block_nb_polynomials(block.shard@) as int) ==> proof_wf(
            block.ipa_proof,
            nb_rounds(block_nb_polynomials(block.shard@)),
        ),
    ensures
        ({
            let nb = block_nb_polynomials(block.shard@);
            let kappa = nb_rounds(nb);
            let u = block_verifier_challenges(*block, pt@);
            let psi = psi_holds(*block, pt@, *vk_psi);
            match res {
                Ok(b) => {
                    &&& psi ==> is_pow2_exists(nb as int) && forall|j: int| 0 <= j < kappa ==> #[trigger] u[j] != 0
                    &&& b == block_accepted(*block, pt@, *vk_psi, tau_1@, g_1@, g_2@)
                },
                Err(e) => {
                    &&& psi
                    &&& {
                        ||| !is_pow2_exists(nb as int) && is_count_error(e, nb)
                        ||| is_pow2_exists(nb as int) && is_inverse_error(e) && exists|j: int| 0 <= j < kappa && #[trigger] u[j] == 0
                    }
                },
            }
        }),
{
    let r = challenge_of(&block.com_f, &pt);
    let p1 = ark_g1_sub(&block.mu_hat, &ark_g1_mul(&vk_psi.g, &block.v_hat));
    let inner = ark_g2_sub(&vk_psi.beta_h, &ark_g2_mul(&vk_psi.h, &pt));
    if !ark_pairing(&p1, &vk_psi.h).equals(&ark_pairing(&block.kzg_proof.w, &inner)) {
        return Ok(false);
    }
    let nb_polynomials = block.shard.size / (block.shard.k as usize) / 31;
    let ghost nb = block_nb_polynomials(block.shard@);
    proof {
        assert(nb_polynomials == nb);
        assert(psi_holds(*block, pt@, *vk_psi));
        assert(block_verifier_challenges(*block, pt@) == verifier_challenges(
            initial_transcript(block.com_f@, r@, block.mu_hat@),
            block.ipa_proof,
            nb_rounds(nb),
        ));
    }
    match ipa::verify(nb_polynomials, None, &block.com_f, r, &block.mu_hat, &block.ipa_proof) {
        Ok(true) => {},
        Ok(false) => {
            return Ok(false);
        },
        Err(e) => {
            return Err(e);
        },
    }
    let rho = proof_challenge_of(&block.ipa_proof);
    proof {
        is_pow2_equiv(nb as int);
    }
    let kappa = ipa::log2(nb_polynomials);
    proof {
        lemma_nb_rounds(nb, kappa as nat);
    }
    let u = challenges_from_transcript(&block.com_f, r, &block.mu_hat, &block.ipa_proof, kappa);
    let u_inv = match invert_all(&u) {
        Some(v) => v,
        None => {
            proof {
                let i = choose|i: int| 0 <= i < u@.len() && !(u@[i]@ != 0);
                assert(values(u@)[i] == u@[i]@);
                assert(false);
            }
            return Err(KomodoError::Other(String::from_str("EllipticInverseError")));
        },
    };
    proof {
        assert(values(u_inv@).len() == u_inv@.len());
        assert forall|x: nat| x < nb implies #[trigger] binary_spec(x, kappa as nat).len() <= u@.len() by {
            assert(pow2(kappa as nat) == nb);
            if kappa == 0 {
                assert(nb == 1) by {
                    vstd::arithmetic::power2::lemma2_to64();
                }
            }
            lemma_bit_len_below(x, kappa as nat);
        }
    }
    let g = compute_g(nb_polynomials, kappa, u.as_slice(), u_inv.as_slice());
    proof {
        assert(values(u_inv@) =~= Seq::new(values(u@).len(), |i: int| finv(values(u@)[i])));
        assert(g@ == g_polynomial(nb, kappa as nat, values(u@)));
    }
    let v_rho = g.evaluate(&rho);
    let lhs = ark_pairing(&ark_g1_sub(tau_1, &ark_g1_mul(g_1, &rho)), &block.aplonk_proof);
    let rhs = ark_pairing(
        &ark_g1_mul(g_1, &Scalar::one()),
        &ark_g2_sub(&block.ipa_proof.ck_tau_0, &ark_g2_mul(g_2, &v_rho)),
    );
    Ok(lhs.equals(&rhs))
}

} // verus!
