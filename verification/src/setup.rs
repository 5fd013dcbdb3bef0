//! Trusted setups for a number of bytes, and their specialization to a
//! degree.
use vstd::prelude::*;
use crate::error::KomodoError;
use crate::field::modulus_p;
use crate::curve::g1_fixed_base_of;
use crate::kzg10::{Powers, encodings, is_kzg_setup, ark_kzg_setup};
use crate::zk::beta_powers;

pub use crate::zk::trim;

verus! {

/// The powers are those of a trusted setup for degree `d`: for some secret
/// $\beta$ and points $g$ and $\gamma g$, the points $[\beta^i] g$ and
/// $[\beta^i] \gamma g$ for $i \le d$.
pub open spec fn is_trimmed_setup(powers: Powers, d: nat) -> bool {
    exists|beta: nat, g: Seq<u8>, gamma_g: Seq<u8>|
        #![trigger g1_fixed_base_of(g, beta_powers(beta, d + 1)), g1_fixed_base_of(gamma_g, beta_powers(beta, d + 1))]
        {
            &&& beta < modulus_p()
            &&& encodings(powers.powers_of_g@) == g1_fixed_base_of(g, beta_powers(beta, d + 1))
            &&& encodings(powers.powers_of_gamma_g@) == g1_fixed_base_of(gamma_g, beta_powers(beta, d + 1))
        }
}

/// Builds a random trusted setup for a number of bytes: the number of bytes
/// over the 31 bytes of a field element gives the degree, for which a setup
/// is drawn from `rng` and trimmed.
///
/// An error is returned when there are fewer bytes than a field element
/// holds, as the degree is then zero.
pub fn random(nb_bytes: usize, rng: &mut ark_std::rand::rngs::StdRng) -> (r: Result<Powers, KomodoError>)
    ensures
        r is Err <==> nb_bytes / 31 < 1,
        r matches Err(e) ==> e == KomodoError::DegreeIsZero,
        r matches Ok(p) ==> {
            &&& p.wf()
            &&& p.powers_of_g@.len() == nb_bytes / 31 + 1
            &&& p.powers_of_gamma_g@.len() == nb_bytes / 31 + 1
            &&& is_trimmed_setup(p, (nb_bytes / 31) as nat)
        },
{
    let degree = nb_bytes / 31;
    let params = match ark_kzg_setup(degree, rng) {
        Some(params) => params,
        None => {
            return Err(KomodoError::DegreeIsZero);
        },
    };
    let ghost pp = params;
    let (powers, _) = trim(params, degree);
    proof {
        let d = degree as nat;
        let (beta, g, gamma_g) = choose|beta: nat, g: Seq<u8>, gamma_g: Seq<u8>|
            #![trigger g1_fixed_base_of(g, beta_powers(beta, d + 1)), g1_fixed_base_of(gamma_g, beta_powers(beta, d + 1))]
            {
            &&& beta < modulus_p()
            &&& encodings(pp.powers_of_g@) == g1_fixed_base_of(g, beta_powers(beta, d + 1))
            &&& encodings(pp.powers_of_gamma_g@).take((d + 1) as int) == g1_fixed_base_of(gamma_g, beta_powers(beta, d + 1))
            &&& pp.powers_of_gamma_g@[(d + 1) as int]@ == crate::curve::g1_multiple_of(pp.powers_of_gamma_g@[d as int]@, beta)
            &&& pp.beta_h@ == crate::curve::g2_multiple_of(pp.h@, beta)
        };
        assert(pp.powers_of_g@.take((d + 1) as int) =~= pp.powers_of_g@);
        assert(encodings(pp.powers_of_gamma_g@.take((d + 1) as int)) =~= encodings(pp.powers_of_gamma_g@).take((d + 1) as int));
        assert(encodings(powers.powers_of_g@).len() == powers.powers_of_g@.len());
        assert(encodings(powers.powers_of_gamma_g@).len() == powers.powers_of_gamma_g@.len());
        assert(is_trimmed_setup(powers, d));
    }
    Ok(powers)
}

/// $\lceil a / b \rceil$.
pub fn ceil_divide(a: usize, b: usize) -> (r: usize)
    requires
        b > 0,
        a + b <= usize::MAX,
    ensures
        r == (a + b - 1) / (b as int),
        r * b >= a,
        r * b < a + b,
{
    let r = (a + b - 1) / b;
    proof {
        let n = (a + b - 1) as int;
        let d = b as int;
        vstd::arithmetic::div_mod::lemma_fundamental_div_mod(n, d);
        assert(r * b >= a && r * b < a + b) by (nonlinear_arith)
            requires
                n == d * (n / d) + n % d,
                0 <= n % d < d,
                r == n / d,
                n == a + b - 1,
                d == b,
        ;
    }
    r
}

} // verus!
