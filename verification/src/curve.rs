//! Points of the groups $\mathbb{G}_1$ and $\mathbb{G}_2$ of BLS12-381 and
//! elements of the target group $\mathbb{G}_T$ of its pairing.
//!
//! A point is held as its compressed encoding. A well-formed value holds the
//! canonical encoding, of the exact length, with nothing but the flags set
//! for the point at infinity, so two points are equal exactly when their
//! encodings are; `from_bytes` refuses any other encoding, though `ark_bls12_381`
//! would decode it. Where a wrapper below says that the encoding of its
//! result decodes again, the result is also written by `ark_serialize`'s
//! `serialize_compressed`, so it is canonical and well formed in this sense.
//! The group operations are done
//! by `ark_ec` on `ark_bls12_381`; their results are named by the spec
//! functions of this module, which say nothing more of them.
use vstd::prelude::*;
use ark_bls12_381::{Bls12_381, Fr, G1Affine, G1Projective, G2Affine};
use ark_ec::pairing::{Pairing, PairingOutput};
use ark_ec::scalar_mul::fixed_base::FixedBase;
use ark_ec::{AffineRepr, CurveGroup, VariableBaseMSM};
use ark_ff::{BigInt, PrimeField};
use ark_serialize::{CanonicalDeserialize, CanonicalSerialize};
use ark_std::{UniformRand, Zero};
use crate::field::{Scalar, all_wf, values};

verus! {

/// A point of $\mathbb{G}_1$, by its 48-byte compressed encoding.
#[derive(Clone, Debug, PartialEq, Eq, Default)]
pub struct G1 {
    pub(crate) bytes: Vec<u8>,
}

/// A point of $\mathbb{G}_2$, by its 96-byte compressed encoding.
#[derive(Clone, Debug, PartialEq, Eq, Default)]
pub struct G2 {
    pub(crate) bytes: Vec<u8>,
}

/// An element of the target group $\mathbb{G}_T$, by its encoding.
#[derive(Clone, Debug, PartialEq, Eq, Default)]
pub struct Gt {
    pub(crate) bytes: Vec<u8>,
}

impl View for G1 {
    type V = Seq<u8>;

    closed spec fn view(&self) -> Seq<u8> {
        self.bytes@
    }
}

impl View for G2 {
    type V = Seq<u8>;

    closed spec fn view(&self) -> Seq<u8> {
        self.bytes@
    }
}

impl View for Gt {
    type V = Seq<u8>;

    closed spec fn view(&self) -> Seq<u8> {
        self.bytes@
    }
}

/// Whether `bytes` decode as a point of $\mathbb{G}_1$.
pub uninterp spec fn g1_decodes(bytes: Seq<u8>) -> bool;

/// Whether `bytes` decode as a point of $\mathbb{G}_2$.
pub uninterp spec fn g2_decodes(bytes: Seq<u8>) -> bool;

/// The sum of two points of $\mathbb{G}_1$.
pub uninterp spec fn g1_sum_of(a: Seq<u8>, b: Seq<u8>) -> Seq<u8>;

/// The difference of two points of $\mathbb{G}_1$.
pub uninterp spec fn g1_difference_of(a: Seq<u8>, b: Seq<u8>) -> Seq<u8>;

/// A point of $\mathbb{G}_1$ multiplied by a scalar.
pub uninterp spec fn g1_multiple_of(a: Seq<u8>, s: nat) -> Seq<u8>;

/// The multi-scalar multiplication $\sum_i s_i P_i$ of points and scalars of
/// the same length.
pub uninterp spec fn g1_msm_of(points: Seq<Seq<u8>>, scalars: Seq<nat>) -> Seq<u8>;

/// The number of terms of a multi-scalar multiplication: the shorter length.
pub open spec fn msm_len(a: nat, b: nat) -> nat {
    if a <= b { a } else { b }
}

/// The multiples $s_i G$ of one point of $\mathbb{G}_1$, by a fixed-base
/// multiplication.
pub uninterp spec fn g1_fixed_base_of(g: Seq<u8>, scalars: Seq<nat>) -> Seq<Seq<u8>>;

/// The difference of two points of $\mathbb{G}_2$.
pub uninterp spec fn g2_difference_of(a: Seq<u8>, b: Seq<u8>) -> Seq<u8>;

/// A point of $\mathbb{G}_2$ multiplied by a scalar.
pub uninterp spec fn g2_multiple_of(a: Seq<u8>, s: nat) -> Seq<u8>;

/// The sum of two points of $\mathbb{G}_2$.
pub uninterp spec fn g2_sum_of(a: Seq<u8>, b: Seq<u8>) -> Seq<u8>;

/// The pairing of a point of $\mathbb{G}_1$ and a point of $\mathbb{G}_2$.
pub uninterp spec fn pairing_of(a: Seq<u8>, b: Seq<u8>) -> Seq<u8>;

/// Whether `bytes` decode, without further checks, as an element of
/// $\mathbb{G}_T$.
pub uninterp spec fn gt_decodes(bytes: Seq<u8>) -> bool;

/// The sum of two elements of $\mathbb{G}_T$, written additively.
pub uninterp spec fn gt_sum_of(a: Seq<u8>, b: Seq<u8>) -> Seq<u8>;

/// An element of $\mathbb{G}_T$ multiplied by a scalar, written additively.
pub uninterp spec fn gt_multiple_of(a: Seq<u8>, s: nat) -> Seq<u8>;

/// The encoding of the point at infinity of $\mathbb{G}_2$: the compression
/// and infinity flags, then zeros.
pub open spec fn g2_identity_bytes() -> Seq<u8> {
    seq![0xc0u8] + Seq::new(95, |i: int| 0u8)
}

/// The encoding of the neutral element of $\mathbb{G}_T$, the unit of the
/// field of degree 12: a one, then zeros, in little-endian order.
pub open spec fn gt_identity_bytes() -> Seq<u8> {
    seq![1u8] + Seq::new(575, |i: int| 0u8)
}

/// The encoding of the point at infinity of $\mathbb{G}_1$: the compression
/// and infinity flags, then zeros.
pub open spec fn g1_identity_bytes() -> Seq<u8> {
    seq![0xc0u8] + Seq::new(47, |i: int| 0u8)
}

/// $\sum_{i < n} s_i P_i$, summed one term after the other from the point at
/// infinity.
pub open spec fn g1_combination(points: Seq<Seq<u8>>, scalars: Seq<nat>, n: nat) -> Seq<u8>
    decreases n,
{
    if n == 0 {
        g1_identity_bytes()
    } else {
        g1_sum_of(g1_combination(points, scalars, (n - 1) as nat), g1_multiple_of(points[n - 1], scalars[n - 1]))
    }
}

/// $\sum_{i < n} s_i Q_i$ in $\mathbb{G}_2$, summed one term after the other
/// from the point at infinity.
pub open spec fn g2_combination(points: Seq<Seq<u8>>, scalars: Seq<nat>, n: nat) -> Seq<u8>
    decreases n,
{
    if n == 0 {
        g2_identity_bytes()
    } else {
        g2_sum_of(g2_combination(points, scalars, (n - 1) as nat), g2_multiple_of(points[n - 1], scalars[n - 1]))
    }
}

/// $\sum_{i < n} e(P_i, Q_i)$ in $\mathbb{G}_T$, summed one term after the
/// other from the neutral element.
pub open spec fn pairing_sum(lhs: Seq<Seq<u8>>, rhs: Seq<Seq<u8>>, n: nat) -> Seq<u8>
    decreases n,
{
    if n == 0 {
        gt_identity_bytes()
    } else {
        gt_sum_of(pairing_sum(lhs, rhs, (n - 1) as nat), pairing_of(lhs[n - 1], rhs[n - 1]))
    }
}

impl G1 {
    /// The encoding is the canonical encoding of a point.
    pub open spec fn wf(&self) -> bool {
        g1_decodes(self@) && is_canonical_point(self@, 48)
    }

    /// The encoding of the point.
    pub fn to_bytes(&self) -> (r: Vec<u8>)
        ensures
            r@ == self@,
    {
        copy_bytes(&self.bytes)
    }

    /// The same point.
    pub fn clone_point(&self) -> (r: G1)
        ensures
            r@ == self@,
    {
        G1 { bytes: copy_bytes(&self.bytes) }
    }

    /// The point with the given encoding, if it is the canonical encoding of
    /// one.
    pub fn from_bytes(bytes: Vec<u8>) -> (r: Option<G1>)
        ensures
            r is Some <==> g1_decodes(bytes@) && is_canonical_point(bytes@, 48),
            r matches Some(p) ==> p@ == bytes@ && p.wf(),
    {
        if canonical_point(&bytes, 48) && ark_g1_decodes(&bytes) {
            Some(G1 { bytes })
        } else {
            None
        }
    }

    /// A point drawn from `rng`.
    pub fn rand(rng: &mut ark_std::rand::rngs::StdRng) -> (r: G1)
        ensures
            r.wf(),
    {
        ark_g1_rand(rng)
    }

    /// The multiple of the point by a scalar.
    pub fn mul(&self, s: &Scalar) -> (r: G1)
        requires
            self.wf(),
            s.wf(),
        ensures
            r.wf(),
            r@ == g1_multiple_of(self@, s@),
    {
        ark_g1_mul(self, s)
    }
}

impl G2 {
    /// The encoding is the canonical encoding of a point.
    pub open spec fn wf(&self) -> bool {
        g2_decodes(self@) && is_canonical_point(self@, 96)
    }

    /// The encoding of the point.
    pub fn to_bytes(&self) -> (r: Vec<u8>)
        ensures
            r@ == self@,
    {
        copy_bytes(&self.bytes)
    }

    /// The same point.
    pub fn clone_point(&self) -> (r: G2)
        ensures
            r@ == self@,
    {
        G2 { bytes: copy_bytes(&self.bytes) }
    }

    /// The point with the given encoding, if it is the canonical encoding of
    /// one.
    pub fn from_bytes(bytes: Vec<u8>) -> (r: Option<G2>)
        ensures
            r is Some <==> g2_decodes(bytes@) && is_canonical_point(bytes@, 96),
            r matches Some(p) ==> p@ == bytes@ && p.wf(),
    {
        if canonical_point(&bytes, 96) && ark_g2_decodes(&bytes) {
            Some(G2 { bytes })
        } else {
            None
        }
    }
}

impl Gt {
    /// The encoding decodes as an element and has its exact length, that of
    /// twelve elements of the base field.
    pub open spec fn wf(&self) -> bool {
        gt_decodes(self@) && self@.len() == 576
    }

    /// The encoding of the element.
    pub fn to_bytes(&self) -> (r: Vec<u8>)
        ensures
            r@ == self@,
    {
        copy_bytes(&self.bytes)
    }

    /// The element with the given encoding, if it decodes as one and has the
    /// exact length.
    pub fn from_bytes(bytes: Vec<u8>) -> (r: Option<Gt>)
        ensures
            r is Some <==> gt_decodes(bytes@) && bytes@.len() == 576,
            r matches Some(x) ==> x@ == bytes@ && x.wf(),
    {
        if bytes.len() == 576 && ark_gt_decodes(&bytes) {
            Some(Gt { bytes })
        } else {
            None
        }
    }

    /// The same element.
    pub fn clone_point(&self) -> (r: Gt)
        ensures
            r@ == self@,
    {
        Gt { bytes: copy_bytes(&self.bytes) }
    }

    /// Whether two elements are equal, that is, their encodings.
    pub fn equals(&self, other: &Gt) -> (r: bool)
        ensures
            r == (self@ == other@),
    {
        bytes_equal(&self.bytes, &other.bytes)
    }
}

/// Whether the infinity flag, the second highest bit of the first byte, is
/// set.
pub open spec fn infinity_flag(b: u8) -> bool {
    b & 0x40u8 != 0u8
}

/// `bytes` have length `size`, and where the infinity flag is set, the first
/// byte holds the compression and infinity flags alone and the others are
/// zero: the compressed encodings that `ark_ec` writes.
pub open spec fn is_canonical_point(bytes: Seq<u8>, size: nat) -> bool {
    &&& bytes.len() == size
    &&& size > 0 && infinity_flag(bytes[0]) ==> bytes[0] == 0xc0u8 && forall|i: int| 1 <= i < bytes.len() ==> bytes[i] == 0u8
}

fn canonical_point(bytes: &Vec<u8>, size: usize) -> (r: bool)
    ensures
        r == is_canonical_point(bytes@, size as nat),
{
    if bytes.len() != size {
        return false;
    }
    if size == 0 || bytes[0] & 0x40u8 == 0u8 {
        return true;
    }
    if bytes[0] != 0xc0u8 {
        return false;
    }
    let mut i: usize = 1;
    while i < bytes.len()
        invariant
            1 <= i <= bytes@.len(),
            bytes@.len() == size,
            infinity_flag(bytes@[0]),
            forall|j: int| 1 <= j < i ==> bytes@[j] == 0u8,
        decreases bytes@.len() - i,
    {
        if bytes[i] != 0u8 {
            assert(bytes@[i as int] != 0u8);
            return false;
        }
        i = i + 1;
    }
    true
}

fn copy_bytes(v: &Vec<u8>) -> (r: Vec<u8>)
    ensures
        r@ == v@,
{
    let r = v.clone();
    proof {
        assert(r@ =~= v@);
    }
    r
}

/// Whether two byte strings are equal.
pub fn bytes_equal(a: &Vec<u8>, b: &Vec<u8>) -> (r: bool)
    ensures
        r == (a@ == b@),
{
    if a.len() != b.len() {
        return false;
    }
    let mut i: usize = 0;
    while i < a.len()
        invariant
            a@.len() == b@.len(),
            i <= a@.len(),
            forall|t: int| 0 <= t < i ==> a@[t] == b@[t],
        decreases a@.len() - i,
    {
        if a[i] != b[i] {
            return false;
        }
        i = i + 1;
    }
    proof {
        assert(a@ =~= b@);
    }
    true
}

/// Whether two points of $\mathbb{G}_1$ are equal, that is, their encodings.
pub fn g1_equals(a: &G1, b: &G1) -> (r: bool)
    ensures
        r == (a@ == b@),
{
    bytes_equal(&a.bytes, &b.bytes)
}

/// Whether two points of $\mathbb{G}_2$ are equal.
pub fn g2_equals(a: &G2, b: &G2) -> (r: bool)
    ensures
        r == (a@ == b@),
{
    bytes_equal(&a.bytes, &b.bytes)
}

/// `ark_serialize`'s `G1Affine::deserialize_compressed`: whether it succeeds
/// on `bytes`, named [`g1_decodes`].
#[verifier::external_body]
fn ark_g1_decodes(bytes: &Vec<u8>) -> (r: bool)
    ensures
        r == g1_decodes(bytes@),
{
    G1Affine::deserialize_compressed(bytes.as_slice()).is_ok()
}

/// `ark_serialize`'s `G2Affine::deserialize_compressed`: whether it succeeds
/// on `bytes`, named [`g2_decodes`].
#[verifier::external_body]
fn ark_g2_decodes(bytes: &Vec<u8>) -> (r: bool)
    ensures
        r == g2_decodes(bytes@),
{
    G2Affine::deserialize_compressed(bytes.as_slice()).is_ok()
}

/// `ark_serialize`'s `PairingOutput::deserialize_compressed_unchecked`:
/// whether it succeeds on `bytes`, named [`gt_decodes`].
#[verifier::external_body]
fn ark_gt_decodes(bytes: &Vec<u8>) -> (r: bool)
    ensures
        r == gt_decodes(bytes@),
{
    PairingOutput::<Bls12_381>::deserialize_compressed_unchecked(bytes.as_slice()).is_ok()
}

/// `ark_ec`'s `G1Affine::zero`, the point at infinity, whose compressed
/// encoding sets the compression and infinity flags of the first byte and
/// leaves the rest zero; the encoding decodes again.
#[verifier::external_body]
pub(crate) fn ark_g1_identity() -> (r: G1)
    ensures
        r@ == g1_identity_bytes(),
        r.wf(),
{
    let mut bytes = Vec::new();
    G1Affine::zero().serialize_compressed(&mut bytes).unwrap();
    G1 { bytes }
}

/// `ark_ec`'s addition of points of $\mathbb{G}_1$, named [`g1_sum_of`]; the
/// encoding of the result decodes again.
#[verifier::external_body]
pub(crate) fn ark_g1_add(a: &G1, b: &G1) -> (r: G1)
    requires
        a.wf(),
        b.wf(),
    ensures
        r@ == g1_sum_of(a@, b@),
        r.wf(),
{
    let p = G1Affine::deserialize_compressed_unchecked(a.bytes.as_slice()).unwrap();
    let q = G1Affine::deserialize_compressed_unchecked(b.bytes.as_slice()).unwrap();
    let mut bytes = Vec::new();
    (p + q).into_affine().serialize_compressed(&mut bytes).unwrap();
    G1 { bytes }
}

/// `ark_ec`'s subtraction of points of $\mathbb{G}_1$, named
/// [`g1_difference_of`]; the encoding of the result decodes again.
#[verifier::external_body]
pub(crate) fn ark_g1_sub(a: &G1, b: &G1) -> (r: G1)
    requires
        a.wf(),
        b.wf(),
    ensures
        r@ == g1_difference_of(a@, b@),
        r.wf(),
{
    let p = G1Affine::deserialize_compressed_unchecked(a.bytes.as_slice()).unwrap();
    let q = G1Affine::deserialize_compressed_unchecked(b.bytes.as_slice()).unwrap();
    let mut bytes = Vec::new();
    (p.into_group() - q.into_group()).into_affine().serialize_compressed(&mut bytes).unwrap();
    G1 { bytes }
}

/// `ark_ec`'s multiplication of a point of $\mathbb{G}_1$ by a scalar,
/// named [`g1_multiple_of`]; the encoding of the result decodes again.
#[verifier::external_body]
pub(crate) fn ark_g1_mul(a: &G1, s: &Scalar) -> (r: G1)
    requires
        a.wf(),
        s.wf(),
    ensures
        r@ == g1_multiple_of(a@, s@),
        r.wf(),
{
    let p = G1Affine::deserialize_compressed_unchecked(a.bytes.as_slice()).unwrap();
    let x = Fr::from(BigInt([s.l0, s.l1, s.l2, s.l3]));
    let mut bytes = Vec::new();
    (p * x).into_affine().serialize_compressed(&mut bytes).unwrap();
    G1 { bytes }
}

/// `ark_ec`'s `VariableBaseMSM::msm_bigint` on points of $\mathbb{G}_1$ and
/// the canonical integers of scalars, named [`g1_msm_of`] over the first
/// points and scalars, as many as the shorter of the two has: the source
/// cuts both to that length first. The encoding of the result decodes again.
#[verifier::external_body]
pub(crate) fn ark_g1_msm(points: &[G1], scalars: &[Scalar]) -> (r: G1)
    requires
        forall|i: int| 0 <= i < points@.len() ==> #[trigger] points@[i].wf(),
        all_wf(scalars@),
    ensures
        r@ == g1_msm_of(
            points@.map_values(|p: G1| p@).take(msm_len(points@.len(), scalars@.len()) as int),
            values(scalars@).take(msm_len(points@.len(), scalars@.len()) as int),
        ),
        r.wf(),
{
    let bases: Vec<G1Affine> = points.iter().map(|p| G1Affine::deserialize_compressed_unchecked(p.bytes.as_slice()).unwrap()).collect();
    let ints: Vec<_> = scalars.iter().map(|s| BigInt::new([s.l0, s.l1, s.l2, s.l3])).collect();
    let mut bytes = Vec::new();
    G1Projective::msm_bigint(&bases, &ints).into_affine().serialize_compressed(&mut bytes).unwrap();
    G1 { bytes }
}

/// `ark_ec`'s `UniformRand` for points of $\mathbb{G}_1$: a point drawn from
/// `rng`. Nothing is stated of which point comes out, but that its encoding
/// decodes.
#[verifier::external_body]
pub(crate) fn ark_g1_rand(rng: &mut ark_std::rand::rngs::StdRng) -> (r: G1)
    ensures
        r.wf(),
{
    let mut bytes = Vec::new();
    G1Projective::rand(rng).into_affine().serialize_compressed(&mut bytes).unwrap();
    G1 { bytes }
}

/// `ark_ec`'s `FixedBase::msm`, with the window size and table that
/// `FixedBase` computes for these scalars: the multiples of `g` by the
/// scalars, one per scalar, named [`g1_fixed_base_of`]; their encodings
/// decode again.
#[verifier::external_body]
pub(crate) fn ark_g1_fixed_base_msm(g: &G1, scalars: &[Scalar]) -> (r: Vec<G1>)
    requires
        g.wf(),
        all_wf(scalars@),
    ensures
        r@.map_values(|p: G1| p@) == g1_fixed_base_of(g@, values(scalars@)),
        r@.len() == scalars@.len(),
        forall|i: int| 0 <= i < r@.len() ==> #[trigger] r@[i].wf(),
{
    let base = G1Affine::deserialize_compressed_unchecked(g.bytes.as_slice()).unwrap().into_group();
    let xs: Vec<Fr> = scalars.iter().map(|s| Fr::from(BigInt([s.l0, s.l1, s.l2, s.l3]))).collect();
    let window = FixedBase::get_mul_window_size(xs.len());
    let table = FixedBase::get_window_table(Fr::MODULUS_BIT_SIZE as usize, window, base);
    let points = FixedBase::msm::<G1Projective>(Fr::MODULUS_BIT_SIZE as usize, window, &table, &xs);
    G1Projective::normalize_batch(&points).iter().map(|p| { let mut bytes = Vec::new(); p.serialize_compressed(&mut bytes).unwrap(); G1 { bytes } }).collect()
}

/// `ark_ec`'s subtraction of points of $\mathbb{G}_2$, named
/// [`g2_difference_of`]; the encoding of the result decodes again.
#[verifier::external_body]
pub(crate) fn ark_g2_sub(a: &G2, b: &G2) -> (r: G2)
    requires
        a.wf(),
        b.wf(),
    ensures
        r@ == g2_difference_of(a@, b@),
        r.wf(),
{
    let p = G2Affine::deserialize_compressed_unchecked(a.bytes.as_slice()).unwrap();
    let q = G2Affine::deserialize_compressed_unchecked(b.bytes.as_slice()).unwrap();
    let mut bytes = Vec::new();
    (p.into_group() - q.into_group()).into_affine().serialize_compressed(&mut bytes).unwrap();
    G2 { bytes }
}

/// `ark_ec`'s multiplication of a point of $\mathbb{G}_2$ by a scalar,
/// named [`g2_multiple_of`]; the encoding of the result decodes again.
#[verifier::external_body]
pub(crate) fn ark_g2_mul(a: &G2, s: &Scalar) -> (r: G2)
    requires
        a.wf(),
        s.wf(),
    ensures
        r@ == g2_multiple_of(a@, s@),
        r.wf(),
{
    let p = G2Affine::deserialize_compressed_unchecked(a.bytes.as_slice()).unwrap();
    let x = Fr::from(BigInt([s.l0, s.l1, s.l2, s.l3]));
    let mut bytes = Vec::new();
    (p * x).into_affine().serialize_compressed(&mut bytes).unwrap();
    G2 { bytes }
}

/// `ark_ec`'s pairing of BLS12-381, named [`pairing_of`].
#[verifier::external_body]
pub(crate) fn ark_pairing(a: &G1, b: &G2) -> (r: Gt)
    requires
        a.wf(),
        b.wf(),
    ensures
        r@ == pairing_of(a@, b@),
        r.wf(),
{
    let p = G1Affine::deserialize_compressed_unchecked(a.bytes.as_slice()).unwrap();
    let q = G2Affine::deserialize_compressed_unchecked(b.bytes.as_slice()).unwrap();
    let mut bytes = Vec::new();
    Bls12_381::pairing(p, q).serialize_compressed(&mut bytes).unwrap();
    Gt { bytes }
}

/// `ark_ec`'s `G2Affine::zero`, the point at infinity, whose compressed
/// encoding sets the compression and infinity flags of the first byte and
/// leaves the rest zero; the encoding decodes again.
#[verifier::external_body]
pub(crate) fn ark_g2_identity() -> (r: G2)
    ensures
        r@ == g2_identity_bytes(),
        r.wf(),
{
    let mut bytes = Vec::new();
    G2Affine::zero().serialize_compressed(&mut bytes).unwrap();
    G2 { bytes }
}

/// `ark_ec`'s addition of points of $\mathbb{G}_2$, named [`g2_sum_of`]; the
/// encoding of the result decodes again.
#[verifier::external_body]
pub(crate) fn ark_g2_add(a: &G2, b: &G2) -> (r: G2)
    requires
        a.wf(),
        b.wf(),
    ensures
        r@ == g2_sum_of(a@, b@),
        r.wf(),
{
    let p = G2Affine::deserialize_compressed_unchecked(a.bytes.as_slice()).unwrap();
    let q = G2Affine::deserialize_compressed_unchecked(b.bytes.as_slice()).unwrap();
    let mut bytes = Vec::new();
    (p + q).into_affine().serialize_compressed(&mut bytes).unwrap();
    G2 { bytes }
}

/// `ark_ec`'s `PairingOutput::zero`, the unit of the field of degree 12,
/// whose encoding is a one followed by zeros.
#[verifier::external_body]
pub(crate) fn ark_gt_identity() -> (r: Gt)
    ensures
        r@ == gt_identity_bytes(),
        r.wf(),
{
    let mut bytes = Vec::new();
    PairingOutput::<Bls12_381>::zero().serialize_compressed(&mut bytes).unwrap();
    Gt { bytes }
}

/// `ark_ec`'s addition in $\mathbb{G}_T$, named [`gt_sum_of`]; the encoding
/// of the result decodes again.
#[verifier::external_body]
pub(crate) fn ark_gt_add(a: &Gt, b: &Gt) -> (r: Gt)
    requires
        a.wf(),
        b.wf(),
    ensures
        r@ == gt_sum_of(a@, b@),
        r.wf(),
{
    let p = PairingOutput::<Bls12_381>::deserialize_compressed_unchecked(a.bytes.as_slice()).unwrap();
    let q = PairingOutput::<Bls12_381>::deserialize_compressed_unchecked(b.bytes.as_slice()).unwrap();
    let mut bytes = Vec::new();
    (p + q).serialize_compressed(&mut bytes).unwrap();
    Gt { bytes }
}

/// `ark_ec`'s multiplication in $\mathbb{G}_T$ by a scalar, named
/// [`gt_multiple_of`]; the encoding of the result decodes again.
#[verifier::external_body]
pub(crate) fn ark_gt_mul(a: &Gt, s: &Scalar) -> (r: Gt)
    requires
        a.wf(),
        s.wf(),
    ensures
        r@ == gt_multiple_of(a@, s@),
        r.wf(),
{
    let p = PairingOutput::<Bls12_381>::deserialize_compressed_unchecked(a.bytes.as_slice()).unwrap();
    let mut bytes = Vec::new();
    (p * Fr::from(BigInt([s.l0, s.l1, s.l2, s.l3]))).serialize_compressed(&mut bytes).unwrap();
    Gt { bytes }
}

} // verus!
