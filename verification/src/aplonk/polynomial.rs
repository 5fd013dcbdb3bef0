//! The polynomial $g$ of the inner product argument of aPlonK.
use vstd::prelude::*;
use vstd::arithmetic::power2::{pow2, lemma_pow2_pos, lemma_pow2_unfold};
use crate::field::{Scalar, all_wf, values, fmul, modulus_p, lemma_modulus_facts};
use crate::algebra::poly::{Polynomial, trim_spec};

verus! {

/// The number of binary digits of `n`, where zero has one digit.
pub open spec fn bit_len(n: nat) -> nat
    decreases n,
{
    if n < 2 { 1 } else { 1 + bit_len(n / 2) }
}

/// The binary digits of `n`, least significant first, padded with zeros to
/// `width` digits when `n` has fewer.
pub open spec fn binary_spec(n: nat, width: nat) -> Seq<u8> {
    let len = if width >= bit_len(n) { width } else { bit_len(n) };
    Seq::new(len, |i: int| ((n / pow2(i as nat)) % 2) as u8)
}

proof fn lemma_bit_len_bound(n: nat)
    ensures
        1 <= bit_len(n) <= n + 1,
        n >= 2 ==> bit_len(n) <= n,
    decreases n,
{
    if n >= 2 {
        lemma_bit_len_bound(n / 2);
    }
}

/// The binary digits of `number`, least significant first, written on at
/// least `width` digits.
pub fn to_binary(number: usize, width: usize) -> (r: Vec<u8>)
    ensures
        r@ == binary_spec(number as nat, width as nat),
{
    let mut l: usize = 1;
    let mut v: usize = number;
    proof {
        lemma_bit_len_bound(number as nat);
    }
    while v >= 2
        invariant
            1 <= l,
            l + bit_len(v as nat) == bit_len(number as nat) + 1,
            bit_len(number as nat) <= number + 1,
            number >= 2 ==> bit_len(number as nat) <= number,
            v <= number,
        decreases v,
    {
        proof {
            lemma_bit_len_bound((v / 2) as nat);
        }
        v = v / 2;
        l = l + 1;
    }
    let len = if width >= l { width } else { l };
    proof {
        vstd::arithmetic::power2::lemma2_to64();
    }
    let mut bits: Vec<u8> = Vec::new();
    let mut w: usize = number;
    let mut i: usize = 0;
    while i < len
        invariant
            i <= len,
            bits@.len() == i,
            w == number as nat / pow2(i as nat),
            forall|t: int| 0 <= t < i ==> #[trigger] bits@[t] == ((number as nat / pow2(t as nat)) % 2) as u8,
        decreases len - i,
    {
        bits.push((w % 2) as u8);
        proof {
            lemma_pow2_pos(i as nat);
            lemma_pow2_unfold((i + 1) as nat);
            vstd::arithmetic::div_mod::lemma_div_denominator(number as int, pow2(i as nat) as int, 2);
            assert(pow2(i as nat) * 2 == pow2((i + 1) as nat));
        }
        w = w / 2;
        i = i + 1;
    }
    proof {
        assert(bits@ =~= binary_spec(number as nat, width as nat));
    }
    bits
}

/// The product of `u_i` where bit `i` is one and of `u_inv_i` where it is
/// zero, for the first `n` bits, from one.
pub open spec fn bits_product(bits: Seq<u8>, u: Seq<nat>, u_inv: Seq<nat>, n: nat) -> nat
    decreases n,
{
    if n == 0 {
        1
    } else {
        fmul(
            bits_product(bits, u, u_inv, (n - 1) as nat),
            if bits[n - 1] == 1u8 { u[n - 1] } else { u_inv[n - 1] },
        )
    }
}

/// Coefficient `j` of $g$: the product over the binary digits of `j` on
/// `kappa` digits.
pub open spec fn g_coefficient(j: nat, kappa: nat, u: Seq<nat>, u_inv: Seq<nat>) -> nat {
    bits_product(binary_spec(j, kappa), u, u_inv, binary_spec(j, kappa).len())
}

/// Computes the polynomial $g$ of aPlonK with `k` coefficients: the
/// coefficient of degree `j` is $\prod_i u_i^{\pm 1}$ where the sign is given
/// by bit `i` of `j`, taking `u_i` for a one and `u_inv_i` for a zero.
pub fn compute_g(k: usize, kappa: usize, u: &[Scalar], u_inv: &[Scalar]) -> (r: Polynomial)
    requires
        all_wf(u@),
        all_wf(u_inv@),
        forall|j: nat| j < k ==> #[trigger] binary_spec(j, kappa as nat).len() <= u@.len(),
        forall|j: nat| j < k ==> #[trigger] binary_spec(j, kappa as nat).len() <= u_inv@.len(),
    ensures
        r.wf(),
        r@ == trim_spec(Seq::new(k as nat, |j: int| g_coefficient(j as nat, kappa as nat, values(u@), values(u_inv@)))),
{
    proof {
        lemma_modulus_facts();
    }
    let ghost uv = values(u@);
    let ghost uiv = values(u_inv@);
    let mut coefficients: Vec<Scalar> = Vec::new();
    let mut j: usize = 0;
    while j < k
        invariant
            all_wf(u@),
            all_wf(u_inv@),
            uv == values(u@),
            uiv == values(u_inv@),
            forall|j: nat| j < k ==> #[trigger] binary_spec(j, kappa as nat).len() <= u@.len(),
            forall|j: nat| j < k ==> #[trigger] binary_spec(j, kappa as nat).len() <= u_inv@.len(),
            j <= k,
            coefficients@.len() == j,
            all_wf(coefficients@),
            forall|t: int| 0 <= t < j ==> #[trigger] coefficients@[t]@ == g_coefficient(t as nat, kappa as nat, uv, uiv),
        decreases k - j,
    {
        let bits = to_binary(j, kappa);
        assert(binary_spec(j as nat, kappa as nat).len() <= u@.len());
        assert(binary_spec(j as nat, kappa as nat).len() <= u_inv@.len());
        let mut acc = Scalar::one();
        let mut i: usize = 0;
        while i < bits.len()
            invariant
                all_wf(u@),
                all_wf(u_inv@),
                uv == values(u@),
                uiv == values(u_inv@),
                bits@ == binary_spec(j as nat, kappa as nat),
                bits@.len() <= u@.len(),
                bits@.len() <= u_inv@.len(),
                i <= bits@.len(),
                acc.wf(),
                acc@ == bits_product(bits@, uv, uiv, i as nat),
            decreases bits@.len() - i,
        {
            let it = if bits[i] == 1u8 { u[i] } else { u_inv[i] };
            acc = acc.mul(&it);
            i = i + 1;
        }
        coefficients.push(acc);
        j = j + 1;
    }
    proof {
        assert(values(coefficients@) =~= Seq::new(k as nat, |j: int| g_coefficient(j as nat, kappa as nat, uv, uiv)));
    }
    Polynomial::from_coefficients_vec(coefficients)
}

} // verus!
