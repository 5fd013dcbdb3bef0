//! Dense univariate polynomials over $\mathbb{F}_p$, stored by their
//! coefficients, the constant one first, without trailing zeros.
use vstd::prelude::*;
use crate::field::{Scalar, all_wf, values, fadd, fmul, modulus_p, lemma_modulus_facts};

verus! {

/// The coefficients `s` have no trailing zero.
pub open spec fn trimmed(s: Seq<nat>) -> bool {
    s.len() == 0 || s.last() != 0
}

/// `s` without its trailing zeros.
pub open spec fn trim_spec(s: Seq<nat>) -> Seq<nat>
    decreases s.len(),
{
    if s.len() > 0 && s.last() == 0 {
        trim_spec(s.drop_last())
    } else {
        s
    }
}

/// The coefficient of degree `j` of the polynomial with coefficients `s`.
pub open spec fn coeff(s: Seq<nat>, j: int) -> nat {
    if 0 <= j < s.len() { s[j] } else { 0 }
}

/// The value at `x` of the polynomial with coefficients `s`, by Horner's
/// rule: $s_0 + x (s_1 + x (s_2 + \ldots))$.
pub open spec fn eval_spec(s: Seq<nat>, x: nat) -> nat
    decreases s.len(),
{
    if s.len() == 0 {
        0
    } else {
        fadd(fmul(eval_spec(s.drop_first(), x), x), s[0])
    }
}

/// A dense univariate polynomial.
#[derive(Clone, Debug, PartialEq, Default)]
pub struct Polynomial {
    /// the coefficients, of degree `0` first
    pub coeffs: Vec<Scalar>,
}

impl View for Polynomial {
    type V = Seq<nat>;

    open spec fn view(&self) -> Seq<nat> {
        values(self.coeffs@)
    }
}

/// Trimming keeps the coefficients and leaves no trailing zero.
pub proof fn lemma_trim(s: Seq<nat>)
    ensures
        trimmed(trim_spec(s)),
        trim_spec(s).len() <= s.len(),
        forall|j: int| #[trigger] coeff(trim_spec(s), j) == coeff(s, j),
        trim_spec(s) == s.subrange(0, trim_spec(s).len() as int),
    decreases s.len(),
{
    if s.len() > 0 && s.last() == 0 {
        lemma_trim(s.drop_last());
        assert forall|j: int| #[trigger] coeff(trim_spec(s), j) == coeff(s, j) by {
            assert(coeff(trim_spec(s.drop_last()), j) == coeff(s.drop_last(), j));
        }
        assert(trim_spec(s) =~= s.subrange(0, trim_spec(s).len() as int));
    } else {
        assert(s == s.subrange(0, s.len() as int));
    }
}

/// Two polynomials without trailing zeros are equal when all their
/// coefficients are.
pub proof fn lemma_coeff_ext(a: Seq<nat>, b: Seq<nat>)
    requires
        trimmed(a),
        trimmed(b),
        forall|j: int| #[trigger] coeff(a, j) == coeff(b, j),
    ensures
        a == b,
{
    if a.len() < b.len() {
        assert(coeff(a, b.len() - 1) == coeff(b, b.len() - 1));
    } else if b.len() < a.len() {
        assert(coeff(a, a.len() - 1) == coeff(b, a.len() - 1));
    } else {
        assert forall|j: int| 0 <= j < a.len() implies a[j] == b[j] by {
            assert(coeff(a, j) == coeff(b, j));
        }
        assert(a =~= b);
    }
}

impl Polynomial {
    /// The coefficients are canonical, without trailing zero.
    pub open spec fn wf(&self) -> bool {
        &&& all_wf(self.coeffs@)
        &&& trimmed(self@)
    }

    /// The zero polynomial, with no coefficient.
    pub fn zero() -> (r: Polynomial)
        ensures
            r.wf(),
            r@ == Seq::<nat>::empty(),
    {
        let r = Polynomial { coeffs: Vec::new() };
        proof {
            assert(r@ =~= Seq::<nat>::empty());
        }
        r
    }

    /// The polynomial with the given coefficients, without the trailing
    /// zeros.
    pub fn from_coefficients_vec(coeffs: Vec<Scalar>) -> (r: Polynomial)
        requires
            all_wf(coeffs@),
        ensures
            r.wf(),
            r@ == trim_spec(values(coeffs@)),
    {
        let mut coeffs = coeffs;
        let ghost orig = values(coeffs@);
        proof {
            lemma_trim(orig);
        }
        while coeffs.len() > 0 && coeffs[coeffs.len() - 1].is_zero()
            invariant
                all_wf(coeffs@),
                trim_spec(values(coeffs@)) == trim_spec(orig),
            decreases coeffs@.len(),
        {
            let ghost before = values(coeffs@);
            coeffs.pop();
            proof {
                assert(values(coeffs@) =~= before.drop_last());
            }
        }
        let r = Polynomial { coeffs };
        proof {
            assert(trim_spec(values(r.coeffs@)) == values(r.coeffs@));
        }
        r
    }

    /// The degree of the polynomial, zero for the zero polynomial.
    pub fn degree(&self) -> (r: usize)
        requires
            self.wf(),
        ensures
            r == if self@.len() == 0 { 0 } else { self@.len() - 1 },
    {
        if self.coeffs.len() == 0 { 0 } else { self.coeffs.len() - 1 }
    }

    /// The sum of two polynomials.
    pub fn add(&self, other: &Polynomial) -> (r: Polynomial)
        requires
            self.wf(),
            other.wf(),
        ensures
            r.wf(),
            forall|j: int| #[trigger] coeff(r@, j) == fadd(coeff(self@, j), coeff(other@, j)),
    {
        proof {
            lemma_modulus_facts();
        }
        let n = if self.coeffs.len() >= other.coeffs.len() { self.coeffs.len() } else { other.coeffs.len() };
        let mut sum: Vec<Scalar> = Vec::new();
        let mut j: usize = 0;
        while j < n
            invariant
                self.wf(),
                other.wf(),
                n == if self@.len() >= other@.len() { self@.len() } else { other@.len() },
                j <= n,
                sum@.len() == j,
                all_wf(sum@),
                forall|t: int| 0 <= t < j ==> #[trigger] sum@[t]@ == fadd(coeff(self@, t), coeff(other@, t)),
            decreases n - j,
        {
            let zero = Scalar::zero();
            let a = if j < self.coeffs.len() { self.coeffs[j] } else { zero };
            let b = if j < other.coeffs.len() { other.coeffs[j] } else { zero };
            sum.push(a.add(&b));
            j = j + 1;
        }
        let ghost s = values(sum@);
        let r = Polynomial::from_coefficients_vec(sum);
        proof {
            lemma_trim(s);
            assert forall|j: int| #[trigger] coeff(r@, j) == fadd(coeff(self@, j), coeff(other@, j)) by {
                assert(coeff(r@, j) == coeff(s, j));
                if !(0 <= j < n) {
                    vstd::arithmetic::div_mod::lemma_small_mod(0, modulus_p());
                }
            }
        }
        r
    }

    /// Every coefficient multiplied by `s`.
    pub fn scale(&self, s: Scalar) -> (r: Polynomial)
        requires
            self.wf(),
            s.wf(),
        ensures
            r.wf(),
            forall|j: int| #[trigger] coeff(r@, j) == fmul(coeff(self@, j), s@),
    {
        proof {
            lemma_modulus_facts();
        }
        let mut out: Vec<Scalar> = Vec::new();
        let mut j: usize = 0;
        while j < self.coeffs.len()
            invariant
                self.wf(),
                s.wf(),
                j <= self@.len(),
                out@.len() == j,
                all_wf(out@),
                forall|t: int| 0 <= t < j ==> #[trigger] out@[t]@ == fmul(self@[t], s@),
            decreases self@.len() - j,
        {
            out.push(self.coeffs[j].mul(&s));
            j = j + 1;
        }
        let ghost o = values(out@);
        let r = Polynomial::from_coefficients_vec(out);
        proof {
            lemma_trim(o);
            assert forall|j: int| #[trigger] coeff(r@, j) == fmul(coeff(self@, j), s@) by {
                assert(coeff(r@, j) == coeff(o, j));
                if !(0 <= j < self@.len()) {
                    assert(0 * s@ == 0);
                    vstd::arithmetic::div_mod::lemma_small_mod(0, modulus_p());
                }
            }
        }
        r
    }
}

impl Polynomial {
    /// The value of the polynomial at `point`.
    pub fn evaluate(&self, point: &Scalar) -> (r: Scalar)
        requires
            self.wf(),
            point.wf(),
        ensures
            r.wf(),
            r@ == eval_spec(self@, point@),
    {
        proof {
            lemma_modulus_facts();
        }
        let n = self.coeffs.len();
        let mut result = Scalar::zero();
        let mut i: usize = n;
        while i > 0
            invariant
                self.wf(),
                point.wf(),
                i <= n,
                n == self@.len(),
                result.wf(),
                result@ == eval_spec(self@.skip(i as int), point@),
            decreases i,
        {
            let ghost tail = self@.skip(i as int);
            result = result.mul(point).add(&self.coeffs[i - 1]);
            proof {
                assert(self@.skip(i - 1).drop_first() =~= tail);
                assert(self@.skip(i - 1)[0] == self@[i - 1]);
            }
            i = i - 1;
        }
        proof {
            assert(self@.skip(0) =~= self@);
        }
        result
    }
}

} // verus!
