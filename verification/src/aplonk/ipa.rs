//! The inner product argument of aPlonK.
use vstd::prelude::*;
use vstd::arithmetic::power2::{is_pow2, is_pow2_exists, is_pow2_equiv, pow2, lemma_pow2_unfold, lemma_pow2_pos};
use vstd::string::StringExecFns;
use vstd::pervasive::unreached;
use crate::error::KomodoError;
use crate::field::{Scalar, all_wf, values, fadd, fmul, finv, fpow, le_bytes, pow256, decimal, modulus_p, lemma_modulus_facts};
use crate::algebra::{powers_of, scalar_product_g1, scalar_product_g2, scalar_product_pairing, g1_views, g2_views, common_len};
use crate::algebra::poly::{Polynomial, eval_spec, trim_spec};
use crate::aplonk::polynomial::{compute_g, binary_spec, bit_len, g_coefficient};
use crate::algebra::sums::lemma_inverse_unique;
use crate::curve::{
    G1, G2, Gt, g1_sum_of, g1_multiple_of, g2_sum_of, g2_multiple_of, g1_combination, g2_combination, pairing_sum,
    gt_sum_of, gt_multiple_of, pairing_of, g1_identity_bytes, gt_identity_bytes, ark_g1_add, ark_g1_mul, ark_g2_add,
    ark_g2_mul, ark_g1_identity, ark_gt_identity, ark_gt_add, ark_gt_mul, ark_pairing, g1_equals, g2_equals,
};
use crate::aplonk::transcript::{self, initial_transcript, round_challenge};
use crate::fec::usize_to_string;

verus! {

proof fn lemma_pow2_bits(n: usize)
    requires
        n > 0,
    ensures
        ((n & ((n - 1) as usize)) == 0) == is_pow2(n as int),
    decreases n,
{
    reveal(is_pow2);
    if n == 1 {
        assert((1usize & 0usize) == 0usize) by (bit_vector);
    } else if n % 2 == 0 {
        let h: usize = n / 2;
        assert(((n & ((n - 1) as usize)) == 0) == ((h & ((h - 1) as usize)) == 0)) by (bit_vector)
            requires
                n > 1,
                n % 2 == 0,
                h == n / 2,
        ;
        lemma_pow2_bits(h);
    } else {
        assert((n & ((n - 1) as usize)) != 0) by (bit_vector)
            requires
                n > 1,
                n % 2 == 1,
        ;
    }
}

/// Whether `n` is a power of two.
pub fn is_power_of_two(n: usize) -> (r: bool)
    ensures
        r == is_pow2_exists(n as int),
{
    proof {
        is_pow2_equiv(n as int);
        reveal(is_pow2);
        if n > 0 {
            lemma_pow2_bits(n);
        }
    }
    n != 0 && (n & (n - 1)) == 0
}


/// The public parameters of the argument: $[\tau]_1$ and the commitment
/// key $([\tau^i]_2)_i$.
#[derive(Clone, Debug, PartialEq, Default)]
pub struct Params {
    pub tau_1: G1,
    pub ck_tau: Vec<G2>,
}

/// A proof of the argument: the cross terms of each round and what is left
/// after the last one.
#[derive(Clone, Debug, PartialEq, Default)]
pub struct Proof {
    pub l_g: Vec<Gt>,
    pub r_g: Vec<Gt>,
    pub l_r: Vec<G1>,
    pub r_r: Vec<G1>,
    pub mu_0: G1,
    pub ck_tau_0: G2,
}

/// The state of the prover between two rounds: the points $\mu$, the key,
/// the scalars $r$ and the transcript.
pub struct Round {
    pub mu: Seq<Seq<u8>>,
    pub ck: Seq<Seq<u8>>,
    pub rv: Seq<nat>,
    pub ts: Seq<u8>,
}

/// Half of `n`, rounded down: where a vector is split.
pub open spec fn half(n: nat) -> nat {
    n / 2
}

/// $L_G = \langle \mu_{left}, ck_{right} \rangle$ in a round.
pub open spec fn round_l_g(s: Round) -> Seq<u8> {
    let (hm, hc) = (half(s.mu.len()), half(s.ck.len()));
    pairing_sum(s.mu.take(hm as int), s.ck.skip(hc as int), common_len(hm, (s.ck.len() - hc) as nat))
}

/// $R_G = \langle \mu_{right}, ck_{left} \rangle$ in a round.
pub open spec fn round_r_g(s: Round) -> Seq<u8> {
    let (hm, hc) = (half(s.mu.len()), half(s.ck.len()));
    pairing_sum(s.mu.skip(hm as int), s.ck.take(hc as int), common_len((s.mu.len() - hm) as nat, hc))
}

/// $L_r = \langle \mu_{left}, r_{right} \rangle$ in a round.
pub open spec fn round_l_r(s: Round) -> Seq<u8> {
    let (hm, hr) = (half(s.mu.len()), half(s.rv.len()));
    g1_combination(s.mu.take(hm as int), s.rv.skip(hr as int), common_len(hm, (s.rv.len() - hr) as nat))
}

/// $R_r = \langle \mu_{right}, r_{left} \rangle$ in a round.
pub open spec fn round_r_r(s: Round) -> Seq<u8> {
    let (hm, hr) = (half(s.mu.len()), half(s.rv.len()));
    g1_combination(s.mu.skip(hm as int), s.rv.take(hr as int), common_len((s.mu.len() - hm) as nat, hr))
}

/// The challenge $u$ of a round.
pub open spec fn round_u(s: Round) -> nat {
    round_challenge(round_l_g(s), round_r_g(s), round_l_r(s), round_r_r(s), s.ts)
}

/// The state after a round: the halves folded with the challenge $u$ and
/// its inverse, and the transcript reset to $u$.
pub open spec fn next_round(s: Round) -> Round {
    let u = round_u(s);
    let ui = finv(u);
    let (hm, hc, hr) = (half(s.mu.len()), half(s.ck.len()), half(s.rv.len()));
    Round {
        mu: Seq::new(hm, |i: int| g1_sum_of(g1_multiple_of(s.mu[i], u), g1_multiple_of(s.mu[hm + i], ui))),
        ck: Seq::new(hc, |i: int| g2_sum_of(g2_multiple_of(s.ck[i], ui), g2_multiple_of(s.ck[hc + i], u))),
        rv: Seq::new(hr, |i: int| fadd(fmul(s.rv[i], ui), fmul(s.rv[hr + i], u))),
        ts: le_bytes(u, 32),
    }
}

/// The state after `t` rounds.
pub open spec fn rounds(s0: Round, t: nat) -> Round
    decreases t,
{
    if t == 0 {
        s0
    } else {
        next_round(rounds(s0, (t - 1) as nat))
    }
}

/// The state before the first round.
pub open spec fn first_round(k: nat, ck_tau: Seq<Seq<u8>>, c_g: Seq<u8>, r: nat, p: Seq<u8>, mu: Seq<Seq<u8>>) -> Round {
    Round {
        mu: mu,
        ck: ck_tau,
        rv: Seq::new(k, |i: int| fpow(r, i as nat)),
        ts: initial_transcript(c_g, r, p),
    }
}

/// The text of the error for a number of polynomials that is not a power of
/// two.
pub open spec fn count_error_text(k: nat) -> Seq<char> {
    "PolynomialCountIpaError: expected $k$ to be a power of 2, found "@ + decimal(k)
}

/// The text of the error for a challenge that has no inverse.
pub open spec fn inverse_error_text() -> Seq<char> {
    "EllipticInverseError: could not inverse BigInt([0, 0, 0, 0])"@
}

/// `e` is the error for a challenge that has no inverse.
pub open spec fn is_inverse_error(e: KomodoError) -> bool {
    e matches KomodoError::Other(t) && t@ == inverse_error_text()
}

/// `e` is the error for a number of polynomials that is not a power of two.
pub open spec fn is_count_error(e: KomodoError, k: nat) -> bool {
    e matches KomodoError::Other(t) && t@ == count_error_text(k)
}

/// The base 2 logarithm of a power of two.
pub(crate) fn log2(k: usize) -> (r: usize)
    requires
        is_pow2(k as int),
    ensures
        pow2(r as nat) == k,
        r < 64,
{
    reveal(is_pow2);
    let mut m = k;
    let mut r: usize = 0;
    proof {
        vstd::arithmetic::power2::lemma2_to64();
    }
    while m > 1
        invariant
            is_pow2(m as int),
            m * pow2(r as nat) == k,
            1 <= m,
            r < 64,
            pow2(r as nat) <= k,
        decreases m,
    {
        proof {
            reveal(is_pow2);
            lemma_pow2_unfold((r + 1) as nat);
            assert(m % 2 == 0);
            assert((m / 2) * pow2((r + 1) as nat) == k) by (nonlinear_arith)
                requires
                    m * pow2(r as nat) == k,
                    m % 2 == 0,
                    pow2((r + 1) as nat) == 2 * pow2(r as nat),
            ;
            assert(pow2((r + 1) as nat) <= k) by (nonlinear_arith)
                requires
                    (m / 2) * pow2((r + 1) as nat) == k,
                    m >= 2,
            ;
            if r + 1 >= 64 {
                assert(r + 1 == 64);
                assert(pow2(64) == 0x1_0000_0000_0000_0000) by {
                    vstd::arithmetic::power2::lemma2_to64();
                }
                assert(false);
            }
        }
        m = m / 2;
        r = r + 1;
    }
    r
}

fn copy_g1s(v: &[G1]) -> (r: Vec<G1>)
    requires
        g1s_wf(v@),
    ensures
        g1s_wf(r@),
        g1_views(r@) == g1_views(v@),
        r@.len() == v@.len(),
        forall|i: int| 0 <= i < v@.len() ==> #[trigger] r@[i]@ == v@[i]@,
{
    let mut r: Vec<G1> = Vec::new();
    let mut i: usize = 0;
    while i < v.len()
        invariant
            i <= v@.len(),
            r@.len() == i,
            forall|t: int| 0 <= t < i ==> #[trigger] r@[t]@ == v@[t]@,
        decreases v@.len() - i,
    {
        r.push(v[i].clone_point());
        i = i + 1;
    }
    proof {
        assert(g1_views(r@) =~= g1_views(v@));
        assert forall|t: int| 0 <= t < r@.len() implies #[trigger] r@[t].wf() by {
            assert(v@[t].wf());
        }
    }
    r
}

fn copy_g2s(v: &[G2]) -> (r: Vec<G2>)
    requires
        g2s_wf(v@),
    ensures
        g2s_wf(r@),
        g2_views(r@) == g2_views(v@),
        r@.len() == v@.len(),
        forall|i: int| 0 <= i < v@.len() ==> #[trigger] r@[i]@ == v@[i]@,
{
    let mut r: Vec<G2> = Vec::new();
    let mut i: usize = 0;
    while i < v.len()
        invariant
            i <= v@.len(),
            r@.len() == i,
            forall|t: int| 0 <= t < i ==> #[trigger] r@[t]@ == v@[t]@,
        decreases v@.len() - i,
    {
        r.push(v[i].clone_point());
        i = i + 1;
    }
    proof {
        assert(g2_views(r@) =~= g2_views(v@));
        assert forall|t: int| 0 <= t < r@.len() implies #[trigger] r@[t].wf() by {
            assert(v@[t].wf());
        }
    }
    r
}

/// The error for a number of polynomials that is not a power of two.
fn count_error(k: usize) -> (e: KomodoError)
    ensures
        is_count_error(e, k as nat),
{
    let mut text = String::from_str("PolynomialCountIpaError: expected $k$ to be a power of 2, found ");
    text.append(usize_to_string(k).as_str());
    proof {
        reveal_strlit("PolynomialCountIpaError: expected $k$ to be a power of 2, found ");
    }
    KomodoError::Other(text)
}

/// The error for a challenge that has no inverse.
fn inverse_error() -> (e: KomodoError)
    ensures
        is_inverse_error(e),
{
    KomodoError::Other(String::from_str("EllipticInverseError: could not inverse BigInt([0, 0, 0, 0])"))
}

/// The state that a prover holds.
pub open spec fn round_of(mu: Seq<G1>, ck: Seq<G2>, rv: Seq<Scalar>, ts: Seq<u8>) -> Round {
    Round { mu: g1_views(mu), ck: g2_views(ck), rv: values(rv), ts: ts }
}

/// All the points of a sequence decode.
pub open spec fn g1s_wf(v: Seq<G1>) -> bool {
    forall|i: int| 0 <= i < v.len() ==> #[trigger] v[i].wf()
}

/// All the points of a sequence decode.
pub open spec fn g2s_wf(v: Seq<G2>) -> bool {
    forall|i: int| 0 <= i < v.len() ==> #[trigger] v[i].wf()
}

/// All the elements of a sequence decode.
pub open spec fn gts_wf(v: Seq<Gt>) -> bool {
    forall|i: int| 0 <= i < v.len() ==> #[trigger] v[i].wf()
}

struct RoundOutput {
    mu: Vec<G1>,
    ck: Vec<G2>,
    rv: Vec<Scalar>,
    ts: Vec<u8>,
    l_g: Gt,
    r_g: Gt,
    l_r: G1,
    r_r: G1,
    u: Scalar,
}

fn prover_round(mu: &Vec<G1>, ck: &Vec<G2>, rv: &Vec<Scalar>, ts: &Vec<u8>) -> (res: Result<RoundOutput, KomodoError>)
    requires
        g1s_wf(mu@),
        g2s_wf(ck@),
        all_wf(rv@),
    ensures
        ({
            let s = round_of(mu@, ck@, rv@, ts@);
            match res {
                Ok(o) => {
                    &&& round_u(s) != 0
                    &&& round_of(o.mu@, o.ck@, o.rv@, o.ts@) == next_round(s)
                    &&& g1s_wf(o.mu@) && g2s_wf(o.ck@) && all_wf(o.rv@)
                    &&& o.l_g@ == round_l_g(s) && o.r_g@ == round_r_g(s)
                    &&& o.l_r@ == round_l_r(s) && o.r_r@ == round_r_r(s)
                    &&& o.l_g.wf() && o.r_g.wf() && o.l_r.wf() && o.r_r.wf()
                    &&& o.u.wf() && o.u@ == round_u(s)
                },
                Err(e) => round_u(s) == 0 && is_inverse_error(e),
            }
        }),
{
    let ghost s = round_of(mu@, ck@, rv@, ts@);
    let hm = mu.len() / 2;
    let hc = ck.len() / 2;
    let hr = rv.len() / 2;
    let mu_left = vstd::slice::slice_subrange(mu.as_slice(), 0, hm);
    let mu_right = vstd::slice::slice_subrange(mu.as_slice(), hm, mu.len());
    let ck_left = vstd::slice::slice_subrange(ck.as_slice(), 0, hc);
    let ck_right = vstd::slice::slice_subrange(ck.as_slice(), hc, ck.len());
    let r_left = vstd::slice::slice_subrange(rv.as_slice(), 0, hr);
    let r_right = vstd::slice::slice_subrange(rv.as_slice(), hr, rv.len());
    proof {
        assert(g1_views(mu_left@) =~= s.mu.take(hm as int));
        assert(g1_views(mu_right@) =~= s.mu.skip(hm as int));
        assert(g2_views(ck_left@) =~= s.ck.take(hc as int));
        assert(g2_views(ck_right@) =~= s.ck.skip(hc as int));
        assert(values(r_left@) =~= s.rv.take(hr as int));
        assert(values(r_right@) =~= s.rv.skip(hr as int));
        assert(g1s_wf(mu_left@) && g1s_wf(mu_right@)) by {
            assert forall|i: int| 0 <= i < mu_left@.len() implies #[trigger] mu_left@[i].wf() by { assert(mu_left@[i] == mu@[i]); }
            assert forall|i: int| 0 <= i < mu_right@.len() implies #[trigger] mu_right@[i].wf() by { assert(mu_right@[i] == mu@[hm + i]); }
        }
        assert(g2s_wf(ck_left@) && g2s_wf(ck_right@)) by {
            assert forall|i: int| 0 <= i < ck_left@.len() implies #[trigger] ck_left@[i].wf() by { assert(ck_left@[i] == ck@[i]); }
            assert forall|i: int| 0 <= i < ck_right@.len() implies #[trigger] ck_right@[i].wf() by { assert(ck_right@[i] == ck@[hc + i]); }
        }
        assert(all_wf(r_left@) && all_wf(r_right@)) by {
            assert forall|i: int| 0 <= i < r_left@.len() implies #[trigger] r_left@[i].wf() by { assert(r_left@[i] == rv@[i]); }
            assert forall|i: int| 0 <= i < r_right@.len() implies #[trigger] r_right@[i].wf() by { assert(r_right@[i] == rv@[hr + i]); }
        }
    }
    let l_g = scalar_product_pairing(mu_left, ck_right);
    let l_r = scalar_product_g1(mu_left, r_right);
    let r_g = scalar_product_pairing(mu_right, ck_left);
    let r_r = scalar_product_g1(mu_right, r_left);
    let u = match transcript::hash(&l_g, &r_g, &l_r, &r_r, ts.as_slice()) {
        Ok(x) => x,
        Err(e) => unreached(),
    };
    let new_ts = match transcript::reset(u) {
        Ok(t) => t,
        Err(e) => unreached(),
    };
    let ui = match u.inverse() {
        Some(x) => x,
        None => {
            return Err(inverse_error());
        },
    };
    proof {
        lemma_inverse_unique(u@, ui@);
    }
    let mut new_mu: Vec<G1> = Vec::new();
    let mut i: usize = 0;
    while i < hm
        invariant
            g1s_wf(mu@),
            hm == mu@.len() / 2,
            mu@.len() <= usize::MAX,
            u.wf(),
            ui.wf(),
            i <= hm,
            new_mu@.len() == i,
            g1s_wf(new_mu@),
            forall|t: int| 0 <= t < i ==> #[trigger] new_mu@[t]@ == g1_sum_of(
                g1_multiple_of(mu@[t]@, u@),
                g1_multiple_of(mu@[hm + t]@, ui@),
            ),
        decreases hm - i,
    {
        let a = ark_g1_mul(&mu[i], &u);
        let b = ark_g1_mul(&mu[hm + i], &ui);
        new_mu.push(ark_g1_add(&a, &b));
        i = i + 1;
    }
    let mut new_ck: Vec<G2> = Vec::new();
    let mut i: usize = 0;
    while i < hc
        invariant
            g2s_wf(ck@),
            hc == ck@.len() / 2,
            ck@.len() <= usize::MAX,
            u.wf(),
            ui.wf(),
            i <= hc,
            new_ck@.len() == i,
            g2s_wf(new_ck@),
            forall|t: int| 0 <= t < i ==> #[trigger] new_ck@[t]@ == g2_sum_of(
                g2_multiple_of(ck@[t]@, ui@),
                g2_multiple_of(ck@[hc + t]@, u@),
            ),
        decreases hc - i,
    {
        let a = ark_g2_mul(&ck[i], &ui);
        let b = ark_g2_mul(&ck[hc + i], &u);
        new_ck.push(ark_g2_add(&a, &b));
        i = i + 1;
    }
    let mut new_rv: Vec<Scalar> = Vec::new();
    let mut i: usize = 0;
    while i < hr
        invariant
            all_wf(rv@),
            hr == rv@.len() / 2,
            rv@.len() <= usize::MAX,
            u.wf(),
            ui.wf(),
            i <= hr,
            new_rv@.len() == i,
            all_wf(new_rv@),
            forall|t: int| 0 <= t < i ==> #[trigger] new_rv@[t]@ == fadd(fmul(rv@[t]@, ui@), fmul(rv@[hr + t]@, u@)),
        decreases hr - i,
    {
        let a = rv[i].mul(&ui);
        let b = rv[hr + i].mul(&u);
        new_rv.push(a.add(&b));
        i = i + 1;
    }
    proof {
        let n = next_round(s);
        assert(g1_views(new_mu@) =~= n.mu);
        assert(g2_views(new_ck@) =~= n.ck);
        assert(values(new_rv@) =~= n.rv);
    }
    Ok(RoundOutput { mu: new_mu, ck: new_ck, rv: new_rv, ts: new_ts, l_g, r_g, l_r, r_r, u })
}

/// The number of rounds of the argument for $k$ polynomials: $\log_2 k$.
pub open spec fn nb_rounds(k: nat) -> nat {
    choose|e: nat| pow2(e) == k
}

pub(crate) proof fn lemma_nb_rounds(k: nat, e: nat)
    requires
        pow2(e) == k,
    ensures
        nb_rounds(k) == e,
{
    let f = nb_rounds(k);
    assert(pow2(f) == k);
    if f < e {
        vstd::arithmetic::power2::lemma_pow2_strictly_increases(f, e);
    } else if e < f {
        vstd::arithmetic::power2::lemma_pow2_strictly_increases(e, f);
    }
}

/// No challenge of the first `t` rounds is zero.
pub open spec fn challenges_invertible(s0: Round, t: nat) -> bool {
    forall|i: nat| i < t ==> #[trigger] round_u(rounds(s0, i)) != 0
}

/// The proof and the challenges after all the rounds from `s0`.
pub open spec fn is_ipa_proof(proof: Proof, u: Seq<Scalar>, s0: Round, kappa: nat) -> bool {
    &&& proof.l_g@.len() == kappa && proof.r_g@.len() == kappa
    &&& proof.l_r@.len() == kappa && proof.r_r@.len() == kappa
    &&& u.len() == kappa
    &&& forall|t: int| 0 <= t < kappa ==> {
        let s = #[trigger] rounds(s0, t as nat);
        let j = kappa - 1 - t;
        &&& proof.l_g@[j]@ == round_l_g(s)
        &&& proof.r_g@[j]@ == round_r_g(s)
        &&& proof.l_r@[j]@ == round_l_r(s)
        &&& proof.r_r@[j]@ == round_r_r(s)
        &&& u[j]@ == round_u(s)
    }
    &&& proof.mu_0@ == rounds(s0, kappa).mu[0]
    &&& proof.ck_tau_0@ == rounds(s0, kappa).ck[0]
}

/// Proves a sequence of commitments with a modified inner product argument:
/// at each of the $\log_2 k$ rounds, the cross terms of the halves of
/// $\mu$, of the key and of the powers of $r$ go into the transcript, whose
/// hash is the challenge $u_j$ that folds the halves.
///
/// An error is returned when $k$ is not a power of two, or when a challenge
/// has no inverse.
pub fn prove(k: usize, ck_tau: &[G2], c_g: &Gt, r: Scalar, p: &G1, mu: &[G1]) -> (res: Result<(Proof, Vec<Scalar>), KomodoError>)
    requires
        g2s_wf(ck_tau@),
        g1s_wf(mu@),
        r.wf(),
        is_pow2_exists(k as int) ==> mu@.len() >= k && ck_tau@.len() >= k,
    ensures
        ({
            let s0 = first_round(k as nat, g2_views(ck_tau@), c_g@, r@, p@, g1_views(mu@));
            let kappa = nb_rounds(k as nat);
            match res {
                Ok((proof, u)) => {
                    &&& is_pow2_exists(k as int)
                    &&& challenges_invertible(s0, kappa)
                    &&& is_ipa_proof(proof, u@, s0, kappa)
                    &&& proof_wf(proof, kappa)
                    &&& all_wf(u@)
                },
                Err(e) => {
                    ||| !is_pow2_exists(k as int) && is_count_error(e, k as nat)
                    ||| is_pow2_exists(k as int) && is_inverse_error(e) && exists|t: nat| t < kappa && challenges_invertible(s0, t)
                        && #[trigger] round_u(rounds(s0, t)) == 0
                },
            }
        }),
{
    let ghost s0 = first_round(k as nat, g2_views(ck_tau@), c_g@, r@, p@, g1_views(mu@));
    proof {
        is_pow2_equiv(k as int);
    }
    if !is_power_of_two(k) {
        return Err(count_error(k));
    }
    let kappa = log2(k);
    proof {
        lemma_nb_rounds(k as nat, kappa as nat);
        lemma_modulus_facts();
    }
    let mut l_g: Vec<Gt> = Vec::new();
    let mut r_g: Vec<Gt> = Vec::new();
    let mut l_r: Vec<G1> = Vec::new();
    let mut r_r: Vec<G1> = Vec::new();
    let mut u = crate::algebra::vector::zero(kappa);
    let mut i: usize = 0;
    while i < kappa
        invariant
            i <= kappa,
            l_g@.len() == i && r_g@.len() == i && l_r@.len() == i && r_r@.len() == i,
            gts_wf(l_g@) && gts_wf(r_g@) && g1s_wf(l_r@) && g1s_wf(r_r@),
        decreases kappa - i,
    {
        l_g.push(ark_gt_identity());
        r_g.push(ark_gt_identity());
        l_r.push(ark_g1_identity());
        r_r.push(ark_g1_identity());
        i = i + 1;
    }
    let mut mu_v = copy_g1s(mu);
    let mut ck_v = copy_g2s(ck_tau);
    let mut r_vec = powers_of(r, k);
    let mut ts = match transcript::initialize(c_g, r, p) {
        Ok(t) => t,
        Err(e) => unreached(),
    };
    proof {
        assert(values(r_vec@) =~= s0.rv);
        assert(round_of(mu_v@, ck_v@, r_vec@, ts@) == rounds(s0, 0));
        vstd::arithmetic::power2::lemma2_to64();
    }
    let mut t: usize = 0;
    while t < kappa
        invariant
            kappa == nb_rounds(k as nat),
            s0 == first_round(k as nat, g2_views(ck_tau@), c_g@, r@, p@, g1_views(mu@)),
            is_pow2_exists(k as int),
            pow2(kappa as nat) == k,
            kappa < 64,
            t <= kappa,
            round_of(mu_v@, ck_v@, r_vec@, ts@) == rounds(s0, t as nat),
            g1s_wf(mu_v@) && g2s_wf(ck_v@) && all_wf(r_vec@),
            mu_v@.len() >= pow2((kappa - t) as nat),
            ck_v@.len() >= pow2((kappa - t) as nat),
            challenges_invertible(s0, t as nat),
            l_g@.len() == kappa && r_g@.len() == kappa && l_r@.len() == kappa && r_r@.len() == kappa,
            u@.len() == kappa,
            all_wf(u@),
            gts_wf(l_g@) && gts_wf(r_g@) && g1s_wf(l_r@) && g1s_wf(r_r@),
            forall|t2: int| 0 <= t2 < t ==> {
                let s = #[trigger] rounds(s0, t2 as nat);
                let j = kappa - 1 - t2;
                &&& l_g@[j]@ == round_l_g(s)
                &&& r_g@[j]@ == round_r_g(s)
                &&& l_r@[j]@ == round_l_r(s)
                &&& r_r@[j]@ == round_r_r(s)
                &&& u@[j]@ == round_u(s)
            },
        decreases kappa - t,
    {
        let j = kappa - 1 - t;
        let out = match prover_round(&mu_v, &ck_v, &r_vec, &ts) {
            Ok(o) => o,
            Err(e) => {
                proof {
                    let tt = t as nat;
                    assert(round_u(rounds(s0, tt)) == 0);
                    assert(tt < kappa && challenges_invertible(s0, tt) && round_u(rounds(s0, tt)) == 0);
                    assert(exists|t: nat| t < kappa && challenges_invertible(s0, t) && #[trigger] round_u(rounds(s0, t)) == 0);
                    assert(is_inverse_error(e));
                }
                return Err(e);
            },
        };
        proof {
            lemma_pow2_unfold((kappa - t) as nat);
            let big = pow2((kappa - t) as nat);
            let small = pow2((kappa - t - 1) as nat);
            assert(g1_views(out.mu@).len() == mu_v@.len() / 2);
            assert(g2_views(out.ck@).len() == ck_v@.len() / 2);
            assert(mu_v@.len() / 2 >= small) by (nonlinear_arith)
                requires
                    mu_v@.len() >= big,
                    big == 2 * small,
            ;
            assert(ck_v@.len() / 2 >= small) by (nonlinear_arith)
                requires
                    ck_v@.len() >= big,
                    big == 2 * small,
            ;
        }
        l_g.set(j, out.l_g);
        r_g.set(j, out.r_g);
        l_r.set(j, out.l_r);
        r_r.set(j, out.r_r);
        u.set(j, out.u);
        mu_v = out.mu;
        ck_v = out.ck;
        r_vec = out.rv;
        ts = out.ts;
        proof {
            assert(challenges_invertible(s0, (t + 1) as nat)) by {
                assert forall|i: nat| i < t + 1 implies #[trigger] round_u(rounds(s0, i)) != 0 by {
                    if i < t {
                        assert(challenges_invertible(s0, t as nat));
                    }
                }
            }
        }
        t = t + 1;
    }
    proof {
        lemma_pow2_pos(0);
        assert(pow2(0) == 1);
        assert(mu_v@[0].wf());
        assert(ck_v@[0].wf());
    }
    let mu_0 = mu_v[0].clone_point();
    let ck_tau_0 = ck_v[0].clone_point();
    let proof = Proof { l_g, r_g, l_r, r_r, mu_0, ck_tau_0 };
    Ok((proof, u))
}

/// The transcript of the verifier before round `t`: the initial one, then
/// the challenge of the round before, taken from the cross terms at index
/// $\kappa - t$.
pub open spec fn verifier_ts(init: Seq<u8>, proof: Proof, kappa: nat, t: nat) -> Seq<u8>
    decreases t,
{
    if t == 0 {
        init
    } else {
        let j = kappa - t;
        le_bytes(
            round_challenge(proof.l_g@[j]@, proof.r_g@[j]@, proof.l_r@[j]@, proof.r_r@[j]@, verifier_ts(init, proof, kappa, (t - 1) as nat)),
            32,
        )
    }
}

/// The challenge of round `t` for the verifier, from the cross terms at
/// index $\kappa - 1 - t$.
pub open spec fn verifier_u(init: Seq<u8>, proof: Proof, kappa: nat, t: nat) -> nat {
    let j = kappa - 1 - t;
    round_challenge(proof.l_g@[j]@, proof.r_g@[j]@, proof.l_r@[j]@, proof.r_r@[j]@, verifier_ts(init, proof, kappa, t))
}

/// The challenges $u_j$ of the verifier, by index.
pub open spec fn verifier_challenges(init: Seq<u8>, proof: Proof, kappa: nat) -> Seq<nat> {
    Seq::new(kappa, |j: int| verifier_u(init, proof, kappa, (kappa - 1 - j) as nat))
}

/// $\sum_{j < n} (u_j^2 L_j + u_j^{-2} R_j)$ on $\mathbb{G}_1$, summed from
/// the point at infinity.
pub open spec fn g1_cross_sum(l: Seq<Seq<u8>>, r: Seq<Seq<u8>>, u: Seq<nat>, ui: Seq<nat>, n: nat) -> Seq<u8>
    decreases n,
{
    if n == 0 {
        g1_identity_bytes()
    } else {
        let j = n - 1;
        g1_sum_of(
            g1_cross_sum(l, r, u, ui, j as nat),
            g1_sum_of(g1_multiple_of(l[j], fmul(u[j], u[j])), g1_multiple_of(r[j], fmul(ui[j], ui[j]))),
        )
    }
}

/// $\sum_{j < n} (u_j^2 L_j + u_j^{-2} R_j)$ on $\mathbb{G}_T$, summed from
/// the neutral element.
pub open spec fn gt_cross_sum(l: Seq<Seq<u8>>, r: Seq<Seq<u8>>, u: Seq<nat>, ui: Seq<nat>, n: nat) -> Seq<u8>
    decreases n,
{
    if n == 0 {
        gt_identity_bytes()
    } else {
        let j = n - 1;
        gt_sum_of(
            gt_cross_sum(l, r, u, ui, j as nat),
            gt_sum_of(gt_multiple_of(l[j], fmul(u[j], u[j])), gt_multiple_of(r[j], fmul(ui[j], ui[j]))),
        )
    }
}

/// The encodings of a sequence of elements of $\mathbb{G}_T$.
pub open spec fn gt_views(v: Seq<Gt>) -> Seq<Seq<u8>> {
    v.map_values(|x: Gt| x@)
}

/// The polynomial $g$ of the argument for the challenges `u`.
pub open spec fn g_polynomial(k: nat, kappa: nat, u: Seq<nat>) -> Seq<nat> {
    trim_spec(Seq::new(k, |j: int| g_coefficient(j as nat, kappa, u, Seq::new(u.len(), |i: int| finv(u[i])))))
}

/// The outcome of the verification of a proof whose challenges are all
/// invertible: the key check, when a key is given, then the two equations
/// $\mu_0 \cdot g(r) = P + \sum_j (u_j^2 L_{r,j} + u_j^{-2} R_{r,j})$ and
/// $e(\mu_0, ck_0) = C_G + \sum_j (u_j^2 L_{G,j} + u_j^{-2} R_{G,j})$.
pub open spec fn ipa_accepts(
    k: nat,
    ck_tau: Option<Seq<Seq<u8>>>,
    c_g: Seq<u8>,
    r: nat,
    p: Seq<u8>,
    proof: Proof,
    kappa: nat,
) -> bool {
    let u = verifier_challenges(initial_transcript(c_g, r, p), proof, kappa);
    let ui = Seq::new(u.len(), |i: int| finv(u[i]));
    let g = g_polynomial(k, kappa, u);
    let key_ok = match ck_tau {
        Some(ck) => g2_combination(ck, g, common_len(ck.len(), g.len())) == proof.ck_tau_0@,
        None => true,
    };
    &&& key_ok
    &&& g1_multiple_of(proof.mu_0@, eval_spec(g, r)) == g1_sum_of(
        p,
        g1_cross_sum(g1_views(proof.l_r@), g1_views(proof.r_r@), u, ui, kappa),
    )
    &&& pairing_of(proof.mu_0@, proof.ck_tau_0@) == gt_sum_of(
        c_g,
        gt_cross_sum(gt_views(proof.l_g@), gt_views(proof.r_g@), u, ui, kappa),
    )
}

/// The key check: given a key $ck$, the verifier accepts exactly the proofs
/// that it accepts without one and whose $ck_0$ is the combination
/// $\sum_i g_i \, ck_i$ of the key by the coefficients of $g$, the polynomial
/// of the challenges that the verifier draws; a proof with any other $ck_0$
/// is refused.
pub proof fn lemma_key_check(
    k: nat,
    ck: Seq<Seq<u8>>,
    c_g: Seq<u8>,
    r: nat,
    p: Seq<u8>,
    proof: Proof,
    kappa: nat,
)
    ensures
        ({
            let u = verifier_challenges(initial_transcript(c_g, r, p), proof, kappa);
            let g = g_polynomial(k, kappa, u);
            ipa_accepts(k, Some(ck), c_g, r, p, proof, kappa) == (
                ipa_accepts(k, None, c_g, r, p, proof, kappa)
                && proof.ck_tau_0@ == g2_combination(ck, g, common_len(ck.len(), g.len()))
            )
        }),
{
}

/// The challenges of the verifier read the cross terms of a proof alone.
proof fn lemma_challenges_read_cross_terms(init: Seq<u8>, proof: Proof, proof2: Proof, kappa: nat, t: nat)
    requires
        proof2.l_g@ == proof.l_g@,
        proof2.r_g@ == proof.r_g@,
        proof2.l_r@ == proof.l_r@,
        proof2.r_r@ == proof.r_r@,
    ensures
        verifier_ts(init, proof2, kappa, t) == verifier_ts(init, proof, kappa, t),
    decreases t,
{
    if t > 0 {
        lemma_challenges_read_cross_terms(init, proof, proof2, kappa, (t - 1) as nat);
    }
}

/// Both equations of the argument bind $\mu_0$: where the verifier accepts
/// two proofs that differ in $\mu_0$ alone, $[g(r)] \mu_0$ and
/// $e(\mu_0, ck_0)$ are the same for both; a $\mu_0$ that changes either is
/// refused.
pub proof fn lemma_mu_0_is_bound(
    k: nat,
    ck_tau: Option<Seq<Seq<u8>>>,
    c_g: Seq<u8>,
    r: nat,
    p: Seq<u8>,
    proof: Proof,
    proof2: Proof,
    kappa: nat,
)
    requires
        proof2.l_g@ == proof.l_g@,
        proof2.r_g@ == proof.r_g@,
        proof2.l_r@ == proof.l_r@,
        proof2.r_r@ == proof.r_r@,
        proof2.ck_tau_0 == proof.ck_tau_0,
        ipa_accepts(k, ck_tau, c_g, r, p, proof, kappa),
        ipa_accepts(k, ck_tau, c_g, r, p, proof2, kappa),
    ensures
        ({
            let g = g_polynomial(k, kappa, verifier_challenges(initial_transcript(c_g, r, p), proof, kappa));
            &&& g1_multiple_of(proof2.mu_0@, eval_spec(g, r)) == g1_multiple_of(proof.mu_0@, eval_spec(g, r))
            &&& pairing_of(proof2.mu_0@, proof.ck_tau_0@) == pairing_of(proof.mu_0@, proof.ck_tau_0@)
        }),
{
    let init = initial_transcript(c_g, r, p);
    assert forall|t: nat| t < kappa implies #[trigger] verifier_u(init, proof2, kappa, t) == verifier_u(init, proof, kappa, t) by {
        lemma_challenges_read_cross_terms(init, proof, proof2, kappa, t);
    }
    assert(verifier_challenges(init, proof2, kappa) =~= verifier_challenges(init, proof, kappa)) by {
        assert forall|j: int| 0 <= j < kappa implies verifier_challenges(init, proof2, kappa)[j] == verifier_challenges(init, proof, kappa)[j] by {
            let t = (kappa - 1 - j) as nat;
            assert(verifier_u(init, proof2, kappa, t) == verifier_u(init, proof, kappa, t));
        }
    }
}

/// The proof holds well formed points and at least $\kappa$ cross terms of
/// each kind.
pub open spec fn proof_wf(proof: Proof, kappa: nat) -> bool {
    &&& gts_wf(proof.l_g@) && gts_wf(proof.r_g@) && g1s_wf(proof.l_r@) && g1s_wf(proof.r_r@)
    &&& proof.mu_0.wf() && proof.ck_tau_0.wf()
    &&& proof.l_g@.len() >= kappa && proof.r_g@.len() >= kappa
    &&& proof.l_r@.len() >= kappa && proof.r_r@.len() >= kappa
}

pub(crate) proof fn lemma_bit_len_below(j: nat, kappa: nat)
    requires
        kappa >= 1,
        j < pow2(kappa),
    ensures
        bit_len(j) <= kappa,
    decreases j,
{
    if j >= 2 {
        lemma_pow2_unfold(kappa);
        if kappa == 1 {
            assert(pow2(0) == 1) by {
                vstd::arithmetic::power2::lemma2_to64();
            }
        } else {
            assert(j / 2 < pow2((kappa - 1) as nat));
            lemma_bit_len_below(j / 2, (kappa - 1) as nat);
        }
    }
}

/// The challenges $u_j$ that the verifier draws from the transcript, by
/// index: from the last cross terms to the first, each hashed with the
/// transcript, which is then reset to the challenge.
pub(crate) fn challenges_from_transcript(c_g: &Gt, r: Scalar, p: &G1, proof: &Proof, kappa: usize) -> (u: Vec<Scalar>)
    requires
        r.wf(),
        proof_wf(*proof, kappa as nat),
    ensures
        u@.len() == kappa,
        all_wf(u@),
        values(u@) == verifier_challenges(initial_transcript(c_g@, r@, p@), *proof, kappa as nat),
{
    let ghost init = initial_transcript(c_g@, r@, p@);
    let ghost us = verifier_challenges(init, *proof, kappa as nat);
    let mut ts = match transcript::initialize(c_g, r, p) {
        Ok(t) => t,
        Err(e) => unreached(),
    };
    let mut u = crate::algebra::vector::zero(kappa);
    let mut t: usize = 0;
    while t < kappa
        invariant
            proof_wf(*proof, kappa as nat),
            init == initial_transcript(c_g@, r@, p@),
            us == verifier_challenges(init, *proof, kappa as nat),
            t <= kappa,
            ts@ == verifier_ts(init, *proof, kappa as nat, t as nat),
            u@.len() == kappa,
            all_wf(u@),
            forall|t2: int| 0 <= t2 < t ==> #[trigger] u@[kappa - 1 - t2]@ == us[kappa - 1 - t2],
        decreases kappa - t,
    {
        let j = kappa - 1 - t;
        let x = match transcript::hash(&proof.l_g[j], &proof.r_g[j], &proof.l_r[j], &proof.r_r[j], ts.as_slice()) {
            Ok(x) => x,
            Err(e) => unreached(),
        };
        proof {
            assert(x@ == verifier_u(init, *proof, kappa as nat, t as nat));
            assert(us[j as int] == verifier_u(init, *proof, kappa as nat, (kappa - 1 - j) as nat));
        }
        u.set(j, x);
        ts = match transcript::reset(x) {
            Ok(t) => t,
            Err(e) => unreached(),
        };
        t = t + 1;
    }
    proof {
        assert forall|j: int| 0 <= j < kappa implies #[trigger] u@[j]@ == us[j] by {
            let t2 = kappa - 1 - j;
            assert(u@[kappa - 1 - t2]@ == us[kappa - 1 - t2]);
        }
        assert(values(u@) =~= us);
    }
    u
}

/// The inverses of the scalars, when none is zero.
pub(crate) fn invert_all(u: &Vec<Scalar>) -> (r: Option<Vec<Scalar>>)
    requires
        all_wf(u@),
    ensures
        r is Some <==> forall|i: int| 0 <= i < u@.len() ==> #[trigger] u@[i]@ != 0,
        r matches Some(v) ==> all_wf(v@) && values(v@) == Seq::new(u@.len(), |i: int| finv(u@[i]@)),
{
    let ghost uis = Seq::new(u@.len(), |i: int| finv(u@[i]@));
    let mut u_inv: Vec<Scalar> = Vec::new();
    let mut i: usize = 0;
    while i < u.len()
        invariant
            all_wf(u@),
            uis == Seq::new(u@.len(), |i: int| finv(u@[i]@)),
            i <= u@.len(),
            u_inv@.len() == i,
            all_wf(u_inv@),
            values(u_inv@) == uis.subrange(0, i as int),
            forall|t2: int| 0 <= t2 < i ==> #[trigger] u@[t2]@ != 0,
        decreases u@.len() - i,
    {
        let inv = u[i].inverse();
        if inv.is_none() {
            return None;
        }
        let x = inv.unwrap();
        proof {
            lemma_inverse_unique(u@[i as int]@, x@);
        }
        u_inv.push(x);
        proof {
            assert(values(u_inv@) =~= uis.subrange(0, i + 1));
        }
        i = i + 1;
    }
    proof {
        assert(values(u_inv@) =~= uis);
    }
    Some(u_inv)
}

proof fn lemma_verifier_ts(proof: Proof, u: Seq<Scalar>, s0: Round, kappa: nat, t: nat)
    requires
        is_ipa_proof(proof, u, s0, kappa),
        t <= kappa,
    ensures
        verifier_ts(s0.ts, proof, kappa, t) == rounds(s0, t).ts,
    decreases t,
{
    if t > 0 {
        lemma_verifier_ts(proof, u, s0, kappa, (t - 1) as nat);
        let s = rounds(s0, (t - 1) as nat);
        assert(proof.l_g@[kappa - t]@ == round_l_g(s));
    }
}

/// The verifier draws from the transcript of an honest proof the challenges
/// of the prover: challenge $u_j$ is that of round $\kappa - 1 - j$ from the
/// state `s0`, and none is zero when the prover found them all invertible.
pub proof fn lemma_verifier_draws_the_challenges_of_the_prover(proof: Proof, u: Seq<Scalar>, s0: Round, kappa: nat)
    requires
        is_ipa_proof(proof, u, s0, kappa),
    ensures
        verifier_challenges(s0.ts, proof, kappa) == values(u),
        challenges_invertible(s0, kappa) ==> forall|j: int| 0 <= j < kappa ==> #[trigger] verifier_challenges(s0.ts, proof, kappa)[j] != 0,
{
    assert forall|j: int| 0 <= j < kappa implies #[trigger] verifier_challenges(s0.ts, proof, kappa)[j] == values(u)[j] by {
        let t = (kappa - 1 - j) as nat;
        lemma_verifier_ts(proof, u, s0, kappa, t);
        assert(rounds(s0, t) == rounds(s0, t));
    }
    assert(verifier_challenges(s0.ts, proof, kappa) =~= values(u));
    if challenges_invertible(s0, kappa) {
        assert forall|j: int| 0 <= j < kappa implies #[trigger] verifier_challenges(s0.ts, proof, kappa)[j] != 0 by {
            let t = (kappa - 1 - j) as nat;
            assert(rounds(s0, t) == rounds(s0, t));
            assert(round_u(rounds(s0, t)) != 0);
        }
    }
}

/// Verifies a proof of the argument, with the key (`IPA.Verify`) or without
/// it (`IPA.Verify'`).
///
/// An error is returned when $k$ is not a power of two, or when a challenge
/// has no inverse.
pub fn verify(k: usize, ck_tau: Option<&Vec<G2>>, c_g: &Gt, r: Scalar, p: &G1, proof: &Proof) -> (res: Result<bool, KomodoError>)
    requires
        k != 1,
        r.wf(),
        c_g.wf(),
        p.wf(),
        ck_tau matches Some(ck) ==> g2s_wf(ck@),
        is_pow2_exists(k as int) ==> proof_wf(*proof, nb_rounds(k as nat)),
    ensures
        ({
            let kappa = nb_rounds(k as nat);
            let u = verifier_challenges(initial_transcript(c_g@, r@, p@), *proof, kappa);
            match res {
                Ok(b) => {
                    &&& is_pow2_exists(k as int)
                    &&& forall|j: int| 0 <= j < kappa ==> #[trigger] u[j] != 0
                    &&& b == ipa_accepts(
                        k as nat,
                        match ck_tau { Some(ck) => Some(g2_views(ck@)), None => None },
                        c_g@,
                        r@,
                        p@,
                        *proof,
                        kappa,
                    )
                },
                Err(e) => {
                    ||| !is_pow2_exists(k as int) && is_count_error(e, k as nat)
                    ||| is_pow2_exists(k as int) && is_inverse_error(e) && exists|j: int| 0 <= j < kappa && #[trigger] u[j] == 0
                },
            }
        }),
{
    proof {
        is_pow2_equiv(k as int);
    }
    if !is_power_of_two(k) {
        return Err(count_error(k));
    }
    let kappa = log2(k);
    proof {
        lemma_nb_rounds(k as nat, kappa as nat);
        lemma_modulus_facts();
    }
    let ghost us = verifier_challenges(initial_transcript(c_g@, r@, p@), *proof, kappa as nat);
    let u = challenges_from_transcript(c_g, r, p, proof, kappa);
    let ghost uis = Seq::new(us.len(), |i: int| finv(us[i]));
    let u_inv = match invert_all(&u) {
        Some(v) => v,
        None => {
            proof {
                let j = choose|j: int| 0 <= j < u@.len() && !(u@[j]@ != 0);
                assert(us[j] == u@[j]@);
            }
            return Err(inverse_error());
        },
    };
    proof {
        assert(values(u_inv@) =~= uis);
        assert forall|j: nat| j < k implies #[trigger] binary_spec(j, kappa as nat).len() <= u@.len() by {
            if kappa == 0 {
                assert(k == 1) by {
                    vstd::arithmetic::power2::lemma2_to64();
                }
            }
            lemma_bit_len_below(j, kappa as nat);
        }
    }
    let g = compute_g(k, kappa, u.as_slice(), u_inv.as_slice());
    proof {
        assert(g@ == g_polynomial(k as nat, kappa as nat, us));
    }
    let r_0 = g.evaluate(&r);
    match ck_tau {
        Some(ck) => {
            let combined = scalar_product_g2(ck.as_slice(), g.coeffs.as_slice());
            proof {
                assert(g2_views(ck@).len() == ck@.len());
            }
            if !g2_equals(&combined, &proof.ck_tau_0) {
                return Ok(false);
            }
        },
        None => {},
    }
    let mut r_sum = ark_g1_identity();
    let mut g_sum = ark_gt_identity();
    let mut j: usize = 0;
    while j < kappa
        invariant
            proof_wf(*proof, kappa as nat),
            u@.len() == kappa && u_inv@.len() == kappa,
            all_wf(u@) && all_wf(u_inv@),
            values(u@) == us,
            values(u_inv@) == uis,
            j <= kappa,
            r_sum.wf() && g_sum.wf(),
            r_sum@ == g1_cross_sum(g1_views(proof.l_r@), g1_views(proof.r_r@), us, uis, j as nat),
            g_sum@ == gt_cross_sum(gt_views(proof.l_g@), gt_views(proof.r_g@), us, uis, j as nat),
        decreases kappa - j,
    {
        let u2 = u[j].mul(&u[j]);
        let ui2 = u_inv[j].mul(&u_inv[j]);
        let lhs = ark_g1_mul(&proof.l_r[j], &u2);
        let rhs = ark_g1_mul(&proof.r_r[j], &ui2);
        r_sum = ark_g1_add(&r_sum, &ark_g1_add(&lhs, &rhs));
        let lhs_t = ark_gt_mul(&proof.l_g[j], &u2);
        let rhs_t = ark_gt_mul(&proof.r_g[j], &ui2);
        g_sum = ark_gt_add(&g_sum, &ark_gt_add(&lhs_t, &rhs_t));
        j = j + 1;
    }
    let lhs = g1_equals(&ark_g1_mul(&proof.mu_0, &r_0), &ark_g1_add(p, &r_sum));
    let rhs = ark_pairing(&proof.mu_0, &proof.ck_tau_0).equals(&ark_gt_add(c_g, &g_sum));
    Ok(lhs && rhs)
}

/// The concatenation of byte strings, in order.
pub open spec fn concat(parts: Seq<Seq<u8>>) -> Seq<u8>
    decreases parts.len(),
{
    if parts.len() == 0 {
        Seq::empty()
    } else {
        concat(parts.drop_last()) + parts.last()
    }
}

/// The compressed serialization of a proof, as `ark_serialize` writes the
/// fields in order: each vector as its length on eight little-endian bytes
/// followed by its elements, then $\mu_0$ and $ck_0$.
pub open spec fn proof_bytes(p: Proof) -> Seq<u8> {
    le_bytes(p.l_g@.len(), 8) + concat(gt_views(p.l_g@)) + le_bytes(p.r_g@.len(), 8) + concat(gt_views(p.r_g@))
        + le_bytes(p.l_r@.len(), 8) + concat(g1_views(p.l_r@)) + le_bytes(p.r_r@.len(), 8) + concat(g1_views(p.r_r@))
        + p.mu_0@ + p.ck_tau_0@
}

/// Appends the eight little-endian bytes of a length.
fn append_length(out: &mut Vec<u8>, n: usize)
    ensures
        final(out)@ == old(out)@ + le_bytes(n as nat, 8),
{
    let ghost start = out@;
    let mut v: usize = n;
    let mut i: usize = 0;
    proof {
        assert(pow256(0) == 1);
        assert(n as nat / 1 == n);
    }
    while i < 8
        invariant
            i <= 8,
            out@.len() == start.len() + i,
            out@.subrange(0, start.len() as int) == start,
            v == n as nat / pow256(i as nat),
            forall|j: int| 0 <= j < i ==> #[trigger] out@[start.len() + j] == ((n as nat / pow256(j as nat)) % 256) as u8,
        decreases 8 - i,
    {
        out.push((v % 256) as u8);
        proof {
            lemma_pow256_positive(i as nat);
            vstd::arithmetic::div_mod::lemma_div_denominator(n as int, pow256(i as nat) as int, 256);
            assert(pow256((i + 1) as nat) == 256 * pow256(i as nat));
            assert(pow256(i as nat) * 256 == 256 * pow256(i as nat)) by (nonlinear_arith);
        }
        v = v / 256;
        i = i + 1;
    }
    proof {
        assert forall|j: int| 0 <= j < out@.len() implies #[trigger] out@[j] == (start + le_bytes(n as nat, 8))[j] by {
            if j < start.len() {
                assert(out@[j] == out@.subrange(0, start.len() as int)[j]);
            } else {
                assert(out@[start.len() + (j - start.len())] == ((n as nat / pow256((j - start.len()) as nat)) % 256) as u8);
            }
        }
        assert(out@ =~= start + le_bytes(n as nat, 8));
    }
}

proof fn lemma_pow256_positive(n: nat)
    ensures
        pow256(n) > 0,
    decreases n,
{
    if n > 0 {
        lemma_pow256_positive((n - 1) as nat);
    }
}

/// Appends the encodings of elements of $\mathbb{G}_T$.
fn append_gts(out: &mut Vec<u8>, v: &Vec<Gt>)
    ensures
        final(out)@ == old(out)@ + concat(gt_views(v@)),
{
    let ghost start = out@;
    let mut i: usize = 0;
    while i < v.len()
        invariant
            i <= v@.len(),
            out@ == start + concat(gt_views(v@.take(i as int))),
        decreases v@.len() - i,
    {
        let bytes = v[i].to_bytes();
        let mut bytes = bytes;
        proof {
            assert(gt_views(v@.take(i + 1)).drop_last() =~= gt_views(v@.take(i as int)));
        }
        out.append(&mut bytes);
        i = i + 1;
    }
    proof {
        assert(v@.take(i as int) =~= v@);
    }
}

/// Appends the encodings of points of $\mathbb{G}_1$.
fn append_g1s(out: &mut Vec<u8>, v: &Vec<G1>)
    ensures
        final(out)@ == old(out)@ + concat(g1_views(v@)),
{
    let ghost start = out@;
    let mut i: usize = 0;
    while i < v.len()
        invariant
            i <= v@.len(),
            out@ == start + concat(g1_views(v@.take(i as int))),
        decreases v@.len() - i,
    {
        let bytes = v[i].to_bytes();
        let mut bytes = bytes;
        proof {
            assert(g1_views(v@.take(i + 1)).drop_last() =~= g1_views(v@.take(i as int)));
        }
        out.append(&mut bytes);
        i = i + 1;
    }
    proof {
        assert(v@.take(i as int) =~= v@);
    }
}

impl Proof {
    /// The compressed serialization of the proof.
    pub fn to_bytes(&self) -> (r: Vec<u8>)
        ensures
            r@ == proof_bytes(*self),
    {
        let mut out: Vec<u8> = Vec::new();
        append_length(&mut out, self.l_g.len());
        append_gts(&mut out, &self.l_g);
        append_length(&mut out, self.r_g.len());
        append_gts(&mut out, &self.r_g);
        append_length(&mut out, self.l_r.len());
        append_g1s(&mut out, &self.l_r);
        append_length(&mut out, self.r_r.len());
        append_g1s(&mut out, &self.r_r);
        let mut mu = self.mu_0.to_bytes();
        out.append(&mut mu);
        let mut ck = self.ck_tau_0.to_bytes();
        out.append(&mut ck);
        proof {
            assert(out@ =~= proof_bytes(*self));
        }
        out
    }
}

} // verus!
