//! Elements of the scalar field $\mathbb{F}_p$ of the BLS12-381 curve.
//!
//! A [`Scalar`] holds the canonical integer representative of a field element,
//! in four little-endian 64-bit limbs. The arithmetic itself is done by
//! `ark_ff` on `ark_bls12_381::Fr`; this module states what each operation
//! computes, as integers modulo $p$.
use vstd::prelude::*;
use vstd::arithmetic::div_mod::*;
use ark_bls12_381::Fr;
use ark_ff::{BigInt, BigInteger, Field, PrimeField, UniformRand};
use ark_std::rand::Rng;

verus! {

/// The order $p$ of the scalar field of BLS12-381.
pub open spec fn modulus_p() -> nat {
    52435875175126190479447740508185965837690552500527637822603658699938581184513nat
}

/// $2^{64}$, the base of the limbs.
pub open spec fn limb_base() -> nat {
    0x1_0000_0000_0000_0000nat
}

/// Field addition on canonical representatives.
pub open spec fn fadd(a: nat, b: nat) -> nat {
    (a + b) % modulus_p()
}

/// Field subtraction on canonical representatives.
pub open spec fn fsub(a: nat, b: nat) -> nat {
    ((a - b) % (modulus_p() as int)) as nat
}

/// Field multiplication on canonical representatives.
pub open spec fn fmul(a: nat, b: nat) -> nat {
    (a * b) % modulus_p()
}

/// Field negation on canonical representatives.
pub open spec fn fneg(a: nat) -> nat {
    ((0 - a) % (modulus_p() as int)) as nat
}

/// The inverse of `a` in $\mathbb{F}_p$, when there is one.
pub open spec fn finv(a: nat) -> nat {
    choose|d: nat| d < modulus_p() && fmul(a, d) == 1
}

/// The external type of random number generators used to draw field elements.
#[verifier::external_type_specification]
#[verifier::external_body]
pub struct ExStdRng(ark_std::rand::rngs::StdRng);

/// An element of $\mathbb{F}_p$, stored as its canonical representative.
#[derive(Clone, Copy, Debug, PartialEq, Eq, Structural)]
pub struct Scalar {
    pub(crate) l0: u64,
    pub(crate) l1: u64,
    pub(crate) l2: u64,
    pub(crate) l3: u64,
}

impl View for Scalar {
    type V = nat;

    /// The integer held by the four limbs.
    closed spec fn view(&self) -> nat {
        (self.l0 as nat) + limb_base() * ((self.l1 as nat) + limb_base() * ((self.l2 as nat) + limb_base() * (self.l3 as nat)))
    }
}

/// `x` and `y` are the same element of $\mathbb{F}_p$ when read as integers mod $p$.
pub open spec fn congruent(x: int, y: int) -> bool {
    x % (modulus_p() as int) == y % (modulus_p() as int)
}

proof fn lemma_digit_unique(a: int, x: int, b: int, y: int)
    requires
        0 <= a < limb_base(),
        0 <= b < limb_base(),
        a + limb_base() * x == b + limb_base() * y,
    ensures
        a == b,
        x == y,
{
    let B = limb_base() as int;
    assert(a + B * x == x * B + a) by (nonlinear_arith);
    assert(b + B * y == y * B + b) by (nonlinear_arith);
    lemma_fundamental_div_mod_converse(a + B * x, B, x, a);
    lemma_fundamental_div_mod_converse(b + B * y, B, y, b);
}

impl Scalar {
    /// A scalar is well formed when it holds a canonical representative.
    pub open spec fn wf(self) -> bool {
        self@ < modulus_p()
    }

    /// Two scalars are equal exactly when they hold the same integer.
    pub proof fn lemma_view_injective(a: Scalar, b: Scalar)
        ensures
            a@ == b@ <==> a == b,
    {
        if a@ == b@ {
            let B = limb_base() as int;
            lemma_digit_unique(
                a.l0 as int,
                a.l1 + B * (a.l2 + B * a.l3),
                b.l0 as int,
                b.l1 + B * (b.l2 + B * b.l3),
            );
            lemma_digit_unique(a.l1 as int, a.l2 + B * a.l3, b.l1 as int, b.l2 + B * b.l3);
            lemma_digit_unique(a.l2 as int, a.l3 as int, b.l2 as int, b.l3 as int);
        }
    }

    /// The zero element.
    pub fn zero() -> (r: Scalar)
        ensures
            r@ == 0,
            r.wf(),
    {
        Scalar { l0: 0, l1: 0, l2: 0, l3: 0 }
    }

    /// The unit element.
    pub fn one() -> (r: Scalar)
        ensures
            r@ == 1,
            r.wf(),
    {
        Scalar { l0: 1, l1: 0, l2: 0, l3: 0 }
    }

    /// Tells whether the element is zero.
    pub fn is_zero(&self) -> (r: bool)
        ensures
            r == (self@ == 0),
    {
        proof {
            Scalar::lemma_view_injective(*self, Scalar { l0: 0, l1: 0, l2: 0, l3: 0 });
        }
        self.l0 == 0 && self.l1 == 0 && self.l2 == 0 && self.l3 == 0
    }

    /// Compares two elements.
    pub fn equals(&self, other: &Scalar) -> (r: bool)
        ensures
            r == (self@ == other@),
    {
        proof {
            Scalar::lemma_view_injective(*self, *other);
        }
        self.l0 == other.l0 && self.l1 == other.l1 && self.l2 == other.l2 && self.l3 == other.l3
    }
}


/// $256^n$.
pub open spec fn pow256(n: nat) -> nat
    decreases n,
{
    if n == 0 { 1 } else { 256 * pow256((n - 1) as nat) }
}

/// The integer whose little-endian base-256 digits are `bytes`.
pub open spec fn le_value(bytes: Seq<u8>) -> nat
    decreases bytes.len(),
{
    if bytes.len() == 0 { 0 } else { bytes[0] as nat + 256 * le_value(bytes.drop_first()) }
}

/// The `n` least significant little-endian base-256 digits of `v`.
pub open spec fn le_bytes(v: nat, n: nat) -> Seq<u8> {
    Seq::new(n, |i: int| ((v / pow256(i as nat)) % 256) as u8)
}

/// The decimal digits of `v`, most significant first, without leading zeros
/// (so that zero has no digit at all).
pub open spec fn decimal_digits(v: nat) -> Seq<char>
    decreases v,
{
    if v == 0 {
        Seq::empty()
    } else {
        decimal_digits(v / 10).push(((v % 10) + 48) as char)
    }
}

/// The decimal notation of `v`, where zero is written `0`.
pub open spec fn decimal(v: nat) -> Seq<char> {
    if v == 0 { seq!['0'] } else { decimal_digits(v) }
}

/// The canonical representatives of a sequence of scalars.
pub open spec fn values(s: Seq<Scalar>) -> Seq<nat> {
    s.map_values(|x: Scalar| x@)
}

/// Every scalar of the sequence is well formed.
pub open spec fn all_wf(s: Seq<Scalar>) -> bool {
    forall|i: int| 0 <= i < s.len() ==> #[trigger] s[i].wf()
}

/// `b` to the power `e`, in $\mathbb{F}_p$.
pub open spec fn fpow(b: nat, e: nat) -> nat
    decreases e,
{
    if e == 0 { 1 } else { fmul(fpow(b, (e - 1) as nat), b) }
}

/// `ark_ff`'s `Fr + Fr`: addition modulo $p$.
#[verifier::external_body]
fn ark_add(a: &Scalar, b: &Scalar) -> (r: Scalar)
    requires
        a.wf(),
        b.wf(),
    ensures
        r@ == fadd(a@, b@),
{
    let x = Fr::from_bigint(BigInt::new([a.l0, a.l1, a.l2, a.l3])).unwrap();
    let y = Fr::from_bigint(BigInt::new([b.l0, b.l1, b.l2, b.l3])).unwrap();
    let z = (x + y).into_bigint().0;
    Scalar { l0: z[0], l1: z[1], l2: z[2], l3: z[3] }
}

/// `ark_ff`'s `Fr - Fr`: subtraction modulo $p$.
#[verifier::external_body]
fn ark_sub(a: &Scalar, b: &Scalar) -> (r: Scalar)
    requires
        a.wf(),
        b.wf(),
    ensures
        r@ == fsub(a@, b@),
{
    let x = Fr::from_bigint(BigInt::new([a.l0, a.l1, a.l2, a.l3])).unwrap();
    let y = Fr::from_bigint(BigInt::new([b.l0, b.l1, b.l2, b.l3])).unwrap();
    let z = (x - y).into_bigint().0;
    Scalar { l0: z[0], l1: z[1], l2: z[2], l3: z[3] }
}

/// `ark_ff`'s `Fr * Fr`: multiplication modulo $p$.
#[verifier::external_body]
fn ark_mul(a: &Scalar, b: &Scalar) -> (r: Scalar)
    requires
        a.wf(),
        b.wf(),
    ensures
        r@ == fmul(a@, b@),
{
    let x = Fr::from_bigint(BigInt::new([a.l0, a.l1, a.l2, a.l3])).unwrap();
    let y = Fr::from_bigint(BigInt::new([b.l0, b.l1, b.l2, b.l3])).unwrap();
    let z = (x * y).into_bigint().0;
    Scalar { l0: z[0], l1: z[1], l2: z[2], l3: z[3] }
}

/// `ark_ff`'s `-Fr`: the opposite modulo $p$.
#[verifier::external_body]
fn ark_neg(a: &Scalar) -> (r: Scalar)
    requires
        a.wf(),
    ensures
        r@ == fneg(a@),
{
    let x = Fr::from_bigint(BigInt::new([a.l0, a.l1, a.l2, a.l3])).unwrap();
    let z = (-x).into_bigint().0;
    Scalar { l0: z[0], l1: z[1], l2: z[2], l3: z[3] }
}

/// `ark_ff`'s `Field::inverse`: `None` for zero, otherwise the canonical
/// inverse modulo $p$.
#[verifier::external_body]
fn ark_inverse(a: &Scalar) -> (r: Option<Scalar>)
    requires
        a.wf(),
    ensures
        r is None <==> a@ == 0,
        r matches Some(x) ==> x@ < modulus_p() && fmul(a@, x@) == 1,
{
    let x = Fr::from_bigint(BigInt::new([a.l0, a.l1, a.l2, a.l3])).unwrap();
    match x.inverse() {
        Some(y) => {
            let z = y.into_bigint().0;
            Some(Scalar { l0: z[0], l1: z[1], l2: z[2], l3: z[3] })
        },
        None => None,
    }
}

/// `ark_ff`'s `From<u128> for Fr`: the integer modulo $p$.
#[verifier::external_body]
fn ark_from_u128(v: u128) -> (r: Scalar)
    ensures
        r@ == v as nat % modulus_p(),
{
    let z = Fr::from(v).into_bigint().0;
    Scalar { l0: z[0], l1: z[1], l2: z[2], l3: z[3] }
}

/// `ark_ff`'s `PrimeField::from_le_bytes_mod_order`: the little-endian
/// integer of the bytes, modulo $p$.
#[verifier::external_body]
fn ark_from_le_bytes_mod_order(bytes: &[u8]) -> (r: Scalar)
    ensures
        r@ == le_value(bytes@) % modulus_p(),
{
    let z = Fr::from_le_bytes_mod_order(bytes).into_bigint().0;
    Scalar { l0: z[0], l1: z[1], l2: z[2], l3: z[3] }
}

/// `ark_ff`'s `BigInteger::to_bytes_le` on the canonical integer
/// (`into_bigint`): its 32 little-endian bytes.
#[verifier::external_body]
fn ark_to_bytes_le(a: &Scalar) -> (r: Vec<u8>)
    requires
        a.wf(),
    ensures
        r@ == le_bytes(a@, 32),
{
    Fr::from_bigint(BigInt::new([a.l0, a.l1, a.l2, a.l3])).unwrap().into_bigint().to_bytes_le()
}

/// `ark_ff`'s `UniformRand for Fr`: a field element drawn from `rng`.
/// Nothing is stated of which element comes out, but that it is canonical.
#[verifier::external_body]
fn ark_rand(rng: &mut ark_std::rand::rngs::StdRng) -> (r: Scalar)
    ensures
        r@ < modulus_p(),
{
    let z = Fr::rand(rng).into_bigint().0;
    Scalar { l0: z[0], l1: z[1], l2: z[2], l3: z[3] }
}

/// `Rng::gen::<u128>` on `rng`: any 128-bit integer.
#[verifier::external_body]
pub(crate) fn rng_u128(rng: &mut ark_std::rand::rngs::StdRng) -> (r: u128) {
    rng.gen::<u128>()
}

/// `Display for Fr`, which writes the canonical integer in decimal with its
/// leading zeros trimmed (zero is written as the empty string).
#[verifier::external_body]
fn ark_display(a: &Scalar) -> (r: String)
    requires
        a.wf(),
    ensures
        r@ == decimal_digits(a@),
{
    format!("{}", Fr::from_bigint(BigInt::new([a.l0, a.l1, a.l2, a.l3])).unwrap())
}

pub proof fn lemma_modulus_facts()
    ensures
        modulus_p() > 0,
        pow256(31) < modulus_p(),
        modulus_p() < pow256(32),
{
    reveal_with_fuel(pow256, 33);
    assert(pow256(31) == 452312848583266388373324160190187140051835877600158453279131187530910662656nat);
    assert(pow256(32) == 115792089237316195423570985008687907853269984665640564039457584007913129639936nat);
}

impl Scalar {
    /// The element `v mod p`.
    pub fn from_u128(v: u128) -> (r: Scalar)
        ensures
            r.wf(),
            r@ == v as nat % modulus_p(),
    {
        proof { lemma_modulus_facts(); }
        ark_from_u128(v)
    }

    /// The element whose canonical representative is the little-endian
    /// integer `bytes`, reduced modulo $p$.
    pub fn from_le_bytes_mod_order(bytes: &[u8]) -> (r: Scalar)
        ensures
            r.wf(),
            r@ == le_value(bytes@) % modulus_p(),
    {
        proof { lemma_modulus_facts(); }
        ark_from_le_bytes_mod_order(bytes)
    }

    /// The 32 little-endian bytes of the canonical representative.
    pub fn to_bytes_le(&self) -> (r: Vec<u8>)
        requires
            self.wf(),
        ensures
            r@ == le_bytes(self@, 32),
    {
        ark_to_bytes_le(self)
    }

    /// `self + other`.
    pub fn add(&self, other: &Scalar) -> (r: Scalar)
        requires
            self.wf(),
            other.wf(),
        ensures
            r.wf(),
            r@ == fadd(self@, other@),
    {
        proof { lemma_modulus_facts(); }
        ark_add(self, other)
    }

    /// `self - other`.
    pub fn sub(&self, other: &Scalar) -> (r: Scalar)
        requires
            self.wf(),
            other.wf(),
        ensures
            r.wf(),
            r@ == fsub(self@, other@),
    {
        proof { lemma_modulus_facts(); }
        ark_sub(self, other)
    }

    /// `self * other`.
    pub fn mul(&self, other: &Scalar) -> (r: Scalar)
        requires
            self.wf(),
            other.wf(),
        ensures
            r.wf(),
            r@ == fmul(self@, other@),
    {
        proof { lemma_modulus_facts(); }
        ark_mul(self, other)
    }

    /// `-self`.
    pub fn neg(&self) -> (r: Scalar)
        requires
            self.wf(),
        ensures
            r.wf(),
            r@ == fneg(self@),
    {
        proof { lemma_modulus_facts(); }
        ark_neg(self)
    }

    /// The multiplicative inverse, `None` for zero.
    pub fn inverse(&self) -> (r: Option<Scalar>)
        requires
            self.wf(),
        ensures
            r is None <==> self@ == 0,
            r matches Some(x) ==> x.wf() && fmul(self@, x@) == 1,
    {
        ark_inverse(self)
    }

    /// A field element drawn from `rng`.
    pub fn rand(rng: &mut ark_std::rand::rngs::StdRng) -> (r: Scalar)
        ensures
            r.wf(),
    {
        ark_rand(rng)
    }

    /// The decimal notation of the canonical representative, without leading
    /// zeros (zero gives the empty string).
    pub fn repr(&self) -> (r: String)
        requires
            self.wf(),
        ensures
            r@ == decimal_digits(self@),
    {
        ark_display(self)
    }
}

} // verus!
