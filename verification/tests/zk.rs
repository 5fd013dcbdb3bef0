use ark_std::rand::rngs::StdRng;
use ark_std::rand::SeedableRng;
use komodo::algebra::poly::Polynomial;
use komodo::error::KomodoError;
use komodo::field::Scalar;
use komodo::zk::{batch_commit, nb_elements_in_setup, setup};

const MODULUS_BYTE_SIZE: usize = 31;

fn rng() -> StdRng {
    StdRng::seed_from_u64(0)
}

fn random_polynomial(nb_coefficients: usize, rng: &mut StdRng) -> Polynomial {
    let mut coefficients: Vec<Scalar> = (0..nb_coefficients).map(|_| Scalar::rand(rng)).collect();
    if let Some(last) = coefficients.last_mut() {
        if last.is_zero() {
            *last = Scalar::one();
        }
    }
    Polynomial::from_coefficients_vec(coefficients)
}

fn generate_setup_template(nb_bytes: usize) {
    let degree = nb_bytes / MODULUS_BYTE_SIZE;

    let rng = &mut rng();

    let powers = setup(degree, rng).unwrap();

    assert_eq!(
        powers.len(),
        degree + 1,
        "number of powers in the trusted setup does not match the number of coefficients"
    );
}

#[test]
fn generate_setup() {
    for nb_kb in [1, 2, 4, 8, 16, 32, 64] {
        generate_setup_template(nb_kb * 1024);
    }
}

#[test]
fn generate_invalid_setup() {
    let rng = &mut rng();

    let powers = setup(0, rng);
    assert!(powers.is_err(), "creating a trusted setup for a degree 0 polynomial should NOT work");
    assert_eq!(powers.err().unwrap(), KomodoError::DegreeIsZero, "message should say the degree is zero");
    assert!(
        setup(1, rng).is_ok(),
        "creating a trusted setup for any polynomial with degree at least 1 should work"
    );
}

fn commit_template(nb_bytes: usize) {
    let degree = nb_bytes / MODULUS_BYTE_SIZE;

    let rng = &mut rng();

    let powers = setup(degree, rng).unwrap();

    assert!(
        komodo::zk::commit(&powers, &random_polynomial(degree, rng)).is_ok(),
        "committing a polynomial with less coefficients than there are powers in the trusted setup should work"
    );
    assert!(
        komodo::zk::commit(&powers, &random_polynomial(degree + 1, rng)).is_ok(),
        "committing a polynomial with as many coefficients as there are powers in the trusted setup should work"
    );
    assert!(
        komodo::zk::commit(&powers, &random_polynomial(degree + 2, rng)).is_err(),
        "committing a polynomial with more coefficients than there are powers in the trusted setup should NOT work"
    );
}

#[test]
fn commit() {
    for nb_kb in [1, 2, 4, 8, 16, 32, 64] {
        commit_template(nb_kb * 1024);
    }
}

#[test]
fn commit_too_many_coefficients_error() {
    let rng = &mut rng();
    let powers = setup(3, rng).unwrap();
    assert_eq!(
        komodo::zk::commit(&powers, &random_polynomial(6, rng)),
        Err(KomodoError::TooFewPowersInTrustedSetup { powers: 4, coefficients: 6 })
    );
    let polynomials = vec![random_polynomial(2, rng), random_polynomial(5, rng), random_polynomial(9, rng)];
    assert_eq!(
        batch_commit(&powers, &polynomials),
        Err(KomodoError::TooFewPowersInTrustedSetup { powers: 4, coefficients: 5 })
    );
    assert_eq!(batch_commit(&powers, &polynomials[..1]).unwrap().len(), 1);
}

#[test]
fn commit_is_linear_in_the_setup() {
    // the commitment of the constant polynomial c is c times the first power
    let rng = &mut rng();
    let powers = setup(3, rng).unwrap();
    let c = komodo::zk::commit(&powers, &Polynomial::from_coefficients_vec(vec![Scalar::one()])).unwrap();
    assert_eq!(c.0, powers.0[0]);
    // leading zero coefficients are skipped: X commits to the second power
    let x = Polynomial::from_coefficients_vec(vec![Scalar::zero(), Scalar::one()]);
    assert_eq!(komodo::zk::commit(&powers, &x).unwrap().0, powers.0[1]);
}

#[test]
fn elements_in_setup() {
    assert_eq!(nb_elements_in_setup(1024), 33);
    assert_eq!(nb_elements_in_setup(30), 0);
    assert_eq!(nb_elements_in_setup(62), 2);
}
