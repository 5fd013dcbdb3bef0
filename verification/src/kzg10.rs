//! The data of the KZG10 polynomial commitment scheme, and the calls into
//! `ark_poly_commit`'s implementation of it.
use vstd::prelude::*;
use ark_bls12_381::{Bls12_381, Fr, G1Affine, G2Affine};
use ark_poly::univariate::DensePolynomial;
use ark_poly::DenseUVPolynomial;
use ark_poly_commit::kzg10::{Powers as ArkPowers, Randomness, KZG10};
use ark_poly_commit::PCRandomness;
use ark_ff::{BigInt, PrimeField};
use ark_serialize::{CanonicalDeserialize, CanonicalSerialize};
use vstd::string::StringExecFns;
use crate::fec::usize_to_string;
use crate::field::{Scalar, decimal, modulus_p, fadd, fmul};
use crate::zk::{beta_powers, committed};
use crate::algebra::poly::Polynomial;
use crate::curve::{G1, G2, g1_fixed_base_of, g1_multiple_of, g2_multiple_of};

verus! {

/// The KZG10 scheme on BLS12-381 with dense polynomials.
type Kzg = KZG10<Bls12_381, DensePolynomial<Fr>>;

/// Committer powers: the points $[\beta^i]_1$ and $[\beta^i \gamma]_1$.
#[derive(Clone, Debug, PartialEq, Default)]
pub struct Powers {
    pub powers_of_g: Vec<G1>,
    pub powers_of_gamma_g: Vec<G1>,
}

/// The verifier key: the generators of $\mathbb{G}_1$ and $\mathbb{G}_2$, and
/// $[\beta]_2$.
#[derive(Clone, Debug, PartialEq, Default)]
pub struct VerifierKey {
    pub g: G1,
    pub gamma_g: G1,
    pub h: G2,
    pub beta_h: G2,
}

/// The universal parameters of a trusted setup: the powers $[\beta^i]_1$ and
/// $[\beta^i \gamma]_1$, one more of the latter, and the generator of
/// $\mathbb{G}_2$ and $[\beta]_2$.
#[derive(Clone, Debug, PartialEq, Default)]
pub struct UniversalParams {
    pub powers_of_g: Vec<G1>,
    pub powers_of_gamma_g: Vec<G1>,
    pub h: G2,
    pub beta_h: G2,
}

/// All the points decode.
pub open spec fn points_wf(points: Seq<G1>) -> bool {
    forall|i: int| 0 <= i < points.len() ==> #[trigger] points[i].wf()
}

/// The encodings of a sequence of points.
pub open spec fn encodings(points: Seq<G1>) -> Seq<Seq<u8>> {
    points.map_values(|p: G1| p@)
}

impl Powers {
    /// All the points decode.
    pub open spec fn wf(&self) -> bool {
        points_wf(self.powers_of_g@) && points_wf(self.powers_of_gamma_g@)
    }

    /// The number of powers $[\beta^i]_1$.
    pub fn size(&self) -> (r: usize)
        ensures
            r == self.powers_of_g@.len(),
    {
        self.powers_of_g.len()
    }
}

impl VerifierKey {
    /// All the points decode.
    pub open spec fn wf(&self) -> bool {
        self.g.wf() && self.gamma_g.wf() && self.h.wf() && self.beta_h.wf()
    }
}

impl UniversalParams {
    /// All the points decode.
    pub open spec fn wf(&self) -> bool {
        points_wf(self.powers_of_g@) && points_wf(self.powers_of_gamma_g@) && self.h.wf() && self.beta_h.wf()
    }
}

/// An opening proof: the commitment $w$ of the witness polynomial, and the
/// evaluation of the hiding polynomial, which is absent without hiding.
#[derive(Clone, Debug, PartialEq, Default)]
pub struct Proof {
    pub w: G1,
    pub random_v: Option<Scalar>,
}

/// The parameters are those of a trusted setup for degree `d`: for some
/// secret $\beta$ and points $g$, $\gamma g$ and $h$, the points
/// $[\beta^i] g$ and $[\beta^i] \gamma g$ for $i \le d$, one more power
/// $[\beta^{d + 1}] \gamma g$, $h$ and $[\beta] h$.
pub open spec fn is_kzg_setup(pp: UniversalParams, d: nat) -> bool {
    &&& pp.powers_of_g@.len() == d + 1
    &&& pp.powers_of_gamma_g@.len() == d + 2
    &&& exists|beta: nat, g: Seq<u8>, gamma_g: Seq<u8>|
        #![trigger g1_fixed_base_of(g, beta_powers(beta, d + 1)), g1_fixed_base_of(gamma_g, beta_powers(beta, d + 1))]
        {
            &&& beta < modulus_p()
            &&& encodings(pp.powers_of_g@) == g1_fixed_base_of(g, beta_powers(beta, d + 1))
            &&& encodings(pp.powers_of_gamma_g@).take((d + 1) as int) == g1_fixed_base_of(gamma_g, beta_powers(beta, d + 1))
            &&& pp.powers_of_gamma_g@[(d + 1) as int]@ == g1_multiple_of(pp.powers_of_gamma_g@[d as int]@, beta)
            &&& pp.beta_h@ == g2_multiple_of(pp.h@, beta)
        }
}

/// `ark_poly_commit`'s `KZG10::setup` for polynomials up to degree
/// `max_degree`, with `rng`, without the negative powers of $h$ (which draw
/// nothing from `rng`): it fails exactly for the degree zero, and otherwise
/// gives a trusted setup of that degree; which secret and which points
/// depend on `rng` and are left unsaid.
#[verifier::external_body]
pub(crate) fn ark_kzg_setup(max_degree: usize, rng: &mut ark_std::rand::rngs::StdRng) -> (r: Option<UniversalParams>)
    ensures
        r is None <==> max_degree < 1,
        r matches Some(pp) ==> pp.wf() && is_kzg_setup(pp, max_degree as nat),
{
    let pp = Kzg::setup(max_degree, false, rng).ok()?;
    let g1 = |p: &G1Affine| { let mut bytes = Vec::new(); p.serialize_compressed(&mut bytes).unwrap(); G1 { bytes } };
    let g2 = |p: &G2Affine| { let mut bytes = Vec::new(); p.serialize_compressed(&mut bytes).unwrap(); G2 { bytes } };
    let (powers_of_g, powers_of_gamma_g) = (pp.powers_of_g.iter().map(g1).collect(), pp.powers_of_gamma_g.values().map(g1).collect());
    Some(UniversalParams { powers_of_g, powers_of_gamma_g, h: g2(&pp.h), beta_h: g2(&pp.beta_h) })
}

/// The KZG10 commitment of a polynomial to the powers $[\beta^i]_1$, without
/// hiding: the multi-scalar multiplication of the powers by the coefficients,
/// from the first coefficient that is not zero on.
pub open spec fn kzg_commitment_of(powers_of_g: Seq<Seq<u8>>, coeffs: Seq<nat>) -> Seq<u8> {
    committed(powers_of_g, coeffs)
}

/// The coefficient of $X^i$ in the quotient of $P$ by $X - z$,
/// $\sum_{j > i} p_j z^{j - i - 1}$, by Horner's rule from the top.
pub open spec fn quotient_coeff(coeffs: Seq<nat>, point: nat, i: nat) -> nat
    decreases coeffs.len() - i,
{
    if i + 1 >= coeffs.len() {
        0
    } else {
        fadd(coeffs[(i + 1) as int], fmul(point, quotient_coeff(coeffs, point, i + 1)))
    }
}

/// The witness polynomial $(P(X) - P(z)) / (X - z)$ of an opening of $P$ at
/// $z$: the quotient of $P$ by $X - z$, one coefficient fewer than $P$, and
/// the zero polynomial where $P$ is constant.
pub open spec fn witness_of(coeffs: Seq<nat>, point: nat) -> Seq<nat> {
    if coeffs.len() <= 1 {
        Seq::empty()
    } else {
        Seq::new((coeffs.len() - 1) as nat, |i: int| quotient_coeff(coeffs, point, i as nat))
    }
}

/// The degree of the polynomial with coefficients `s`, zero for the zero
/// polynomial.
pub open spec fn degree_of(s: Seq<nat>) -> nat {
    if s.len() == 0 { 0 } else { (s.len() - 1) as nat }
}

/// The text of `ark_poly_commit`'s error for a polynomial with more
/// coefficients than there are powers.
pub open spec fn too_many_coefficients_text(num_coefficients: nat, num_powers: nat) -> Seq<char> {
    "the number of coefficients in the polynomial ("@ + decimal(num_coefficients)
        + ") is greater thanthe maximum number of powers in `Powers` ("@ + decimal(num_powers) + ")"@
}

/// `ark_poly_commit`'s `KZG10::commit` without hiding: the commitment,
/// [`kzg_commitment_of`] (the hiding part is a multi-scalar multiplication
/// with no term, the point at infinity, which adds nothing), or, when the polynomial has more coefficients than
/// there are powers $[\beta^i]_1$, the text of the error; the encoding of the
/// commitment decodes again.
#[verifier::external_body]
pub(crate) fn ark_kzg_commit(powers: &Powers, polynomial: &Polynomial) -> (r: Result<G1, String>)
    requires
        powers.wf(),
        polynomial.wf(),
    ensures
        r is Err <==> degree_of(polynomial@) + 1 > powers.powers_of_g@.len(),
        r matches Err(t) ==> t@ == too_many_coefficients_text(degree_of(polynomial@) + 1, powers.powers_of_g@.len() as nat),
        r matches Ok(c) ==> c.wf() && c@ == kzg_commitment_of(encodings(powers.powers_of_g@), polynomial@),
{
    let to_ark = |ps: &[G1]| ps.iter().map(|p| G1Affine::deserialize_compressed_unchecked(&p.bytes[..]).unwrap()).collect::<Vec<_>>();
    let ark_powers = ArkPowers { powers_of_g: to_ark(&powers.powers_of_g).into(), powers_of_gamma_g: to_ark(&powers.powers_of_gamma_g).into() };
    let p = DensePolynomial::from_coefficients_vec(polynomial.coeffs.iter().map(|s| Fr::from(BigInt([s.l0, s.l1, s.l2, s.l3]))).collect());
    let mut bytes = Vec::new();
    Kzg::commit(&ark_powers, &p, None, None).map_err(|e| e.to_string())?.0.0.serialize_compressed(&mut bytes).unwrap();
    Ok(G1 { bytes })
}

/// `ark_poly_commit`'s `KZG10::compute_witness_polynomial` without hiding:
/// the quotient of the polynomial by $X - z$, [`witness_of`], which `ark_poly`
/// finds by long division; its leading coefficient is that of the polynomial,
/// so it has no trailing zero.
#[verifier::external_body]
pub(crate) fn ark_witness_polynomial(polynomial: &Polynomial, point: &Scalar) -> (r: Polynomial)
    requires
        polynomial.wf(),
        point.wf(),
    ensures
        r.wf(),
        r@ == witness_of(polynomial@, point@),
        r@.len() <= polynomial@.len(),
{
    let fr = |s: &Scalar| Fr::from(BigInt([s.l0, s.l1, s.l2, s.l3]));
    let p = DensePolynomial::from_coefficients_vec(polynomial.coeffs.iter().map(fr).collect());
    let (w, _) = Kzg::compute_witness_polynomial(&p, fr(point), &Randomness::empty()).unwrap();
    Polynomial { coeffs: w.coeffs.iter().map(|x| x.into_bigint().0).map(|z| Scalar { l0: z[0], l1: z[1], l2: z[2], l3: z[3] }).collect() }
}

/// The text of `ark_poly_commit`'s error for a polynomial with more
/// coefficients than there are powers.
pub(crate) fn too_many_coefficients_message(num_coefficients: usize, num_powers: usize) -> (r: String)
    ensures
        r@ == too_many_coefficients_text(num_coefficients as nat, num_powers as nat),
{
    let mut text = String::from_str("the number of coefficients in the polynomial (");
    text.append(usize_to_string(num_coefficients).as_str());
    text.append(") is greater thanthe maximum number of powers in `Powers` (");
    text.append(usize_to_string(num_powers).as_str());
    text.append(")");
    text
}

/// Opens a polynomial at a point without hiding, as `ark_poly_commit`'s
/// `KZG10::open` does: the proof is the commitment of the witness
/// polynomial, and holds no evaluation of a hiding polynomial.
///
/// The text of `ark_poly_commit`'s error is returned when the polynomial has
/// more coefficients than there are powers.
///
/// `KZG10::open` itself is visible only inside `ark_poly_commit`; this
/// function is made of the public steps it takes: `compute_witness_polynomial`
/// and the commitment of the witness to the powers, whose degree check is the
/// same.
pub fn open(powers: &Powers, polynomial: &Polynomial, point: &Scalar) -> (r: Result<Proof, String>)
    requires
        powers.wf(),
        polynomial.wf(),
        point.wf(),
    ensures
        r is Err <==> degree_of(polynomial@) + 1 > powers.powers_of_g@.len(),
        r matches Err(t) ==> t@ == too_many_coefficients_text(degree_of(polynomial@) + 1, powers.powers_of_g@.len() as nat),
        r matches Ok(pr) ==> {
            &&& pr.w.wf()
            &&& pr.random_v is None
            &&& pr.w@ == kzg_commitment_of(
                encodings(powers.powers_of_g@),
                witness_of(polynomial@, point@),
            )
        },
{
    let nb_coefficients = polynomial.coeffs.len();
    let degree = polynomial.degree();
    assert(degree == 0 || degree < nb_coefficients);
    let nb_powers = powers.size();
    if degree >= nb_powers {
        return Err(too_many_coefficients_message(degree + 1, nb_powers));
    }
    let witness = ark_witness_polynomial(polynomial, point);
    match ark_kzg_commit(powers, &witness) {
        Ok(w) => Ok(Proof { w, random_v: None }),
        Err(t) => Err(t),
    }
}

} // verus!
