//! Trusted setups and commitments of polynomials on $\mathbb{G}_1$.
//!
//! A trusted setup is the sequence $([\tau^j]_1)_{0 \le j \le t - 1}$ of the
//! first powers of a secret $\tau$ on $\mathbb{G}_1$, and the commitment of a
//! polynomial $P = (p_j)$ is $\sum_j p_j [\tau^j]_1 = [P(\tau)]_1$.
use vstd::prelude::*;
use crate::error::KomodoError;
use crate::field::{Scalar, all_wf, values, fpow, modulus_p, lemma_modulus_facts};
use crate::algebra::poly::{Polynomial, trimmed};
use crate::curve::{G1, G2, g1_msm_of, g1_fixed_base_of, ark_g1_msm, ark_g1_rand, ark_g1_fixed_base_msm};
use crate::kzg10::{self, UniversalParams, VerifierKey, kzg_commitment_of, degree_of, too_many_coefficients_text, encodings, ark_kzg_commit};

verus! {

/// A trusted setup: the first powers of a secret on $\mathbb{G}_1$.
#[derive(Clone, Debug, PartialEq, Default)]
pub struct Powers(pub Vec<G1>);

/// A commitment: one point of $\mathbb{G}_1$.
#[derive(Clone, Debug, PartialEq, Default)]
pub struct Commitment(pub G1);

/// The encodings of a sequence of points.
pub open spec fn points_view(points: Seq<G1>) -> Seq<Seq<u8>> {
    points.map_values(|p: G1| p@)
}

/// All the points decode.
pub open spec fn all_points_wf(points: Seq<G1>) -> bool {
    forall|i: int| 0 <= i < points.len() ==> #[trigger] points[i].wf()
}

impl Powers {
    /// All the powers are points.
    pub open spec fn wf(&self) -> bool {
        all_points_wf(self.0@)
    }

    /// The number of powers.
    pub fn len(&self) -> (r: usize)
        ensures
            r == self.0@.len(),
    {
        self.0.len()
    }
}

/// The degree of the polynomial with coefficients `s`, zero for the zero
/// polynomial.
pub open spec fn poly_degree(s: Seq<nat>) -> nat {
    if s.len() == 0 { 0 } else { (s.len() - 1) as nat }
}

/// The number of zero coefficients before the first nonzero one.
pub open spec fn leading_zeros(s: Seq<nat>) -> nat
    decreases s.len(),
{
    if s.len() == 0 || s[0] != 0 {
        0
    } else {
        1 + leading_zeros(s.drop_first())
    }
}

/// A polynomial fits in a trusted setup of `nb_powers` powers.
pub open spec fn fits(nb_powers: nat, s: Seq<nat>) -> bool {
    poly_degree(s) + 1 <= nb_powers
}

/// The commitment of the polynomial `s` with the trusted setup `powers`:
/// the multi-scalar multiplication of the powers by the coefficients, from
/// the first nonzero coefficient on.
pub open spec fn committed(powers: Seq<Seq<u8>>, s: Seq<nat>) -> Seq<u8> {
    let z = leading_zeros(s) as int;
    g1_msm_of(powers.subrange(z, s.len() as int), s.subrange(z, s.len() as int))
}

/// The error that committing a polynomial that does not fit gives.
pub open spec fn too_few_powers(nb_powers: nat, s: Seq<nat>) -> KomodoError {
    KomodoError::TooFewPowersInTrustedSetup { powers: nb_powers as usize, coefficients: (poly_degree(s) + 1) as usize }
}

proof fn lemma_leading_zeros(s: Seq<nat>, z: nat)
    requires
        z <= s.len(),
        forall|t: int| 0 <= t < z ==> s[t] == 0,
        z < s.len() ==> s[z as int] != 0,
    ensures
        leading_zeros(s) == z,
    decreases z,
{
    if z > 0 {
        lemma_leading_zeros(s.drop_first(), (z - 1) as nat);
    }
}

/// $1, \beta, \ldots, \beta^{n - 1}$.
pub open spec fn beta_powers(beta: nat, n: nat) -> Seq<nat> {
    Seq::new(n, |j: int| fpow(beta, j as nat))
}

/// The points are the multiples of some point by the first `n` powers of
/// some secret.
pub open spec fn is_powers_setup(points: Seq<Seq<u8>>, n: nat) -> bool {
    exists|beta: nat, g: Seq<u8>| beta < modulus_p() && points == #[trigger] g1_fixed_base_of(g, beta_powers(beta, n))
}

/// Creates a trusted setup for polynomials up to a given degree: the powers
/// $[\beta^j]_1$ for $0 \le j \le d$, for a secret $\beta$ and a point drawn
/// from `rng`.
///
/// An error is returned for the degree zero.
pub fn setup(max_degree: usize, rng: &mut ark_std::rand::rngs::StdRng) -> (r: Result<Powers, KomodoError>)
    requires
        max_degree < usize::MAX,
    ensures
        r is Err <==> max_degree < 1,
        r matches Err(e) ==> e == KomodoError::DegreeIsZero,
        r matches Ok(p) ==> {
            &&& p.wf()
            &&& p.0@.len() == max_degree + 1
            &&& is_powers_setup(points_view(p.0@), (max_degree + 1) as nat)
        },
{
    if max_degree < 1 {
        return Err(KomodoError::DegreeIsZero);
    }
    proof {
        lemma_modulus_facts();
        vstd::arithmetic::div_mod::lemma_small_mod(1, modulus_p());
    }
    let beta = Scalar::rand(rng);
    let g = ark_g1_rand(rng);
    let mut powers_of_beta: Vec<Scalar> = Vec::new();
    powers_of_beta.push(Scalar::one());
    let mut cur = beta;
    proof {
        assert(fpow(beta@, 0) == 1);
        assert(fpow(beta@, 1) == crate::field::fmul(fpow(beta@, 0), beta@));
        assert(1 * beta@ == beta@);
        vstd::arithmetic::div_mod::lemma_small_mod(beta@, modulus_p());
        assert(crate::field::fmul(1, beta@) == beta@);
    }
    let mut i: usize = 0;
    while i < max_degree
        invariant
            beta.wf(),
            i <= max_degree,
            powers_of_beta@.len() == i + 1,
            all_wf(powers_of_beta@),
            cur.wf(),
            cur@ == fpow(beta@, (i + 1) as nat),
            forall|j: int| 0 <= j <= i ==> #[trigger] powers_of_beta@[j]@ == fpow(beta@, j as nat),
        decreases max_degree - i,
    {
        powers_of_beta.push(cur);
        cur = cur.mul(&beta);
        i = i + 1;
    }
    let points = ark_g1_fixed_base_msm(&g, &powers_of_beta);
    proof {
        assert(values(powers_of_beta@) =~= beta_powers(beta@, (max_degree + 1) as nat));
        assert(points_view(points@) == points@.map_values(|p: G1| p@));
        assert(points_view(points@) == g1_fixed_base_of(g@, beta_powers(beta@, (max_degree + 1) as nat)));
    }
    Ok(Powers(points))
}

/// Computes the commitment of a polynomial with a trusted setup.
///
/// An error is returned when the polynomial has more coefficients than
/// there are powers in the trusted setup.
pub fn commit(powers: &Powers, polynomial: &Polynomial) -> (r: Result<Commitment, KomodoError>)
    requires
        powers.wf(),
        polynomial.wf(),
    ensures
        match r {
            Ok(c) => {
                &&& fits(powers.0@.len() as nat, polynomial@)
                &&& c.0.wf()
                &&& c.0@ == committed(points_view(powers.0@), polynomial@)
            },
            Err(e) => {
                &&& !fits(powers.0@.len() as nat, polynomial@)
                &&& e == too_few_powers(powers.0@.len() as nat, polynomial@)
            },
        },
{
    let n = polynomial.coeffs.len();
    let degree = polynomial.degree();
    if degree + 1 > powers.len() {
        return Err(KomodoError::TooFewPowersInTrustedSetup { powers: powers.len(), coefficients: degree + 1 });
    }
    let mut z: usize = 0;
    while z < n && polynomial.coeffs[z].is_zero()
        invariant
            n == polynomial@.len(),
            z <= n,
            forall|t: int| 0 <= t < z ==> polynomial@[t] == 0,
        decreases n - z,
    {
        z = z + 1;
    }
    proof {
        lemma_leading_zeros(polynomial@, z as nat);
    }
    let bases = vstd::slice::slice_subrange(powers.0.as_slice(), z, n);
    let scalars = vstd::slice::slice_subrange(polynomial.coeffs.as_slice(), z, n);
    proof {
        assert(bases@.map_values(|p: G1| p@) =~= points_view(powers.0@).subrange(z as int, n as int));
        assert(values(scalars@) =~= polynomial@.subrange(z as int, n as int));
        assert(bases@.map_values(|p: G1| p@).take(bases@.len() as int) =~= bases@.map_values(|p: G1| p@));
        assert(values(scalars@).take(scalars@.len() as int) =~= values(scalars@));
        assert forall|i: int| 0 <= i < bases@.len() implies #[trigger] bases@[i].wf() by {
            assert(bases@[i] == powers.0@[z + i]);
        }
        assert(all_wf(scalars@)) by {
            assert forall|i: int| 0 <= i < scalars@.len() implies #[trigger] scalars@[i].wf() by {
                assert(scalars@[i] == polynomial.coeffs@[z + i]);
            }
        }
    }
    Ok(Commitment(ark_g1_msm(bases, scalars)))
}

/// Computes the commitments of a set of polynomials, one for each.
///
/// The first polynomial that does not fit in the trusted setup gives an
/// error.
pub fn batch_commit(powers: &Powers, polynomials: &[Polynomial]) -> (r: Result<Vec<Commitment>, KomodoError>)
    requires
        powers.wf(),
        forall|i: int| 0 <= i < polynomials@.len() ==> #[trigger] polynomials@[i].wf(),
    ensures
        match r {
            Ok(cs) => {
                &&& cs@.len() == polynomials@.len()
                &&& forall|i: int| 0 <= i < cs@.len() ==> {
                    &&& fits(powers.0@.len() as nat, #[trigger] polynomials@[i]@)
                    &&& cs@[i].0.wf()
                    &&& cs@[i].0@ == committed(points_view(powers.0@), polynomials@[i]@)
                }
            },
            Err(e) => exists|i: int| 0 <= i < polynomials@.len() && {
                &&& forall|t: int| 0 <= t < i ==> fits(powers.0@.len() as nat, #[trigger] polynomials@[t]@)
                &&& !fits(powers.0@.len() as nat, #[trigger] polynomials@[i]@)
                &&& e == too_few_powers(powers.0@.len() as nat, polynomials@[i]@)
            },
        },
{
    let mut commits: Vec<Commitment> = Vec::new();
    let mut i: usize = 0;
    while i < polynomials.len()
        invariant
            powers.wf(),
            forall|i: int| 0 <= i < polynomials@.len() ==> #[trigger] polynomials@[i].wf(),
            i <= polynomials@.len(),
            commits@.len() == i,
            forall|t: int| 0 <= t < i ==> {
                &&& fits(powers.0@.len() as nat, #[trigger] polynomials@[t]@)
                &&& commits@[t].0.wf()
                &&& commits@[t].0@ == committed(points_view(powers.0@), polynomials@[t]@)
            },
        decreases polynomials@.len() - i,
    {
        match commit(powers, &polynomials[i]) {
            Ok(c) => commits.push(c),
            Err(e) => {
                return Err(e);
            },
        }
        i = i + 1;
    }
    Ok(commits)
}

/// The number of elements that a trusted setup should have for data of
/// `nb_bytes` bytes, one per 31 bytes.
pub fn nb_elements_in_setup(nb_bytes: usize) -> (r: usize)
    ensures
        r == nb_bytes / 31,
{
    nb_bytes / 31
}

fn copy_points(points: &Vec<G1>, n: usize) -> (r: Vec<G1>)
    requires
        n <= points@.len(),
    ensures
        encodings(r@) == encodings(points@.take(n as int)),
        r@.len() == n,
        forall|t: int| 0 <= t < n ==> #[trigger] r@[t]@ == points@[t]@,
{
    let mut r: Vec<G1> = Vec::new();
    let mut i: usize = 0;
    while i < n
        invariant
            n <= points@.len(),
            i <= n,
            r@.len() == i,
            forall|t: int| 0 <= t < i ==> #[trigger] r@[t]@ == points@[t]@,
        decreases n - i,
    {
        r.push(points[i].clone_point());
        i = i + 1;
    }
    proof {
        assert(encodings(r@) =~= encodings(points@.take(n as int)));
    }
    r
}

/// Specializes universal parameters to polynomials of a given degree: the
/// committer keeps the first `supported_degree + 1` powers of each kind,
/// and the verifier key holds the first powers and the points of
/// $\mathbb{G}_2$.
pub fn trim(pp: UniversalParams, supported_degree: usize) -> (r: (kzg10::Powers, VerifierKey))
    requires
        pp.wf(),
        supported_degree < pp.powers_of_g@.len(),
        supported_degree < pp.powers_of_gamma_g@.len(),
    ensures
        r.0.wf(),
        r.1.wf(),
        encodings(r.0.powers_of_g@) == encodings(pp.powers_of_g@.take(supported_degree + 1)),
        encodings(r.0.powers_of_gamma_g@) == encodings(pp.powers_of_gamma_g@.take(supported_degree + 1)),
        r.1.g@ == pp.powers_of_g@[0]@,
        r.1.gamma_g@ == pp.powers_of_gamma_g@[0]@,
        r.1.h == pp.h,
        r.1.beta_h == pp.beta_h,
{
    let _ = pp.powers_of_g.len();
    let powers_of_g = copy_points(&pp.powers_of_g, supported_degree + 1);
    let powers_of_gamma_g = copy_points(&pp.powers_of_gamma_g, supported_degree + 1);
    let vk = VerifierKey {
        g: pp.powers_of_g[0].clone_point(),
        gamma_g: pp.powers_of_gamma_g[0].clone_point(),
        h: pp.h,
        beta_h: pp.beta_h,
    };
    let powers = kzg10::Powers { powers_of_g, powers_of_gamma_g };
    proof {
        assert(pp.powers_of_g@[0].wf());
        assert(pp.powers_of_gamma_g@[0].wf());
        assert forall|t: int| 0 <= t < powers.powers_of_g@.len() implies #[trigger] powers.powers_of_g@[t].wf() by {
            assert(pp.powers_of_g@[t].wf());
        }
        assert forall|t: int| 0 <= t < powers.powers_of_gamma_g@.len() implies #[trigger] powers.powers_of_gamma_g@[t].wf() by {
            assert(pp.powers_of_gamma_g@[t].wf());
        }
    }
    (powers, vk)
}

/// The KZG10 commitments of a set of polynomials, one for each, without
/// hiding.
///
/// The first polynomial with more coefficients than there are powers gives
/// the text of the error of `ark_poly_commit`.
pub fn ark_commit(powers: &kzg10::Powers, polynomials: &[Polynomial]) -> (r: Result<Vec<G1>, String>)
    requires
        powers.wf(),
        forall|i: int| 0 <= i < polynomials@.len() ==> #[trigger] polynomials@[i].wf(),
    ensures
        match r {
            Ok(cs) => {
                &&& cs@.len() == polynomials@.len()
                &&& forall|i: int| 0 <= i < cs@.len() ==> {
                    &&& degree_of(#[trigger] polynomials@[i]@) + 1 <= powers.powers_of_g@.len()
                    &&& cs@[i].wf()
                    &&& cs@[i]@ == kzg_commitment_of(
                        encodings(powers.powers_of_g@),
                        polynomials@[i]@,
                    )
                }
            },
            Err(t) => exists|i: int| 0 <= i < polynomials@.len() && {
                &&& forall|j: int| 0 <= j < i ==> degree_of(#[trigger] polynomials@[j]@) + 1 <= powers.powers_of_g@.len()
                &&& degree_of(#[trigger] polynomials@[i]@) + 1 > powers.powers_of_g@.len()
                &&& t@ == too_many_coefficients_text(degree_of(polynomials@[i]@) + 1, powers.powers_of_g@.len() as nat)
            },
        },
{
    let mut commits: Vec<G1> = Vec::new();
    let mut i: usize = 0;
    while i < polynomials.len()
        invariant
            powers.wf(),
            forall|i: int| 0 <= i < polynomials@.len() ==> #[trigger] polynomials@[i].wf(),
            i <= polynomials@.len(),
            commits@.len() == i,
            forall|t: int| 0 <= t < i ==> {
                &&& degree_of(#[trigger] polynomials@[t]@) + 1 <= powers.powers_of_g@.len()
                &&& commits@[t].wf()
                &&& commits@[t]@ == kzg_commitment_of(
                    encodings(powers.powers_of_g@),
                    polynomials@[t]@,
                )
            },
        decreases polynomials@.len() - i,
    {
        match ark_kzg_commit(powers, &polynomials[i]) {
            Ok(c) => commits.push(c),
            Err(t) => {
                return Err(t);
            },
        }
        i = i + 1;
    }
    Ok(commits)
}

} // verus!
