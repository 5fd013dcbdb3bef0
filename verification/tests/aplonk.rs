use ark_std::rand::rngs::StdRng;
use ark_std::rand::SeedableRng;
use komodo::algebra::poly::Polynomial;
use komodo::aplonk::ipa::is_power_of_two;
use komodo::aplonk::polynomial::{compute_g, to_binary};
use komodo::field::Scalar;

#[test]
fn power_of_two() {
    assert!(!is_power_of_two(0));
    assert!(is_power_of_two(1));
    assert!(is_power_of_two(2));
    assert!(!is_power_of_two(3));
    assert!(is_power_of_two(4));
    assert!(!is_power_of_two(5));
    assert!(!is_power_of_two(6));
    assert!(!is_power_of_two(7));
    assert!(is_power_of_two(8));
    assert!(!is_power_of_two(15));
    assert!(is_power_of_two(16));
    assert!(is_power_of_two(1 << 63));
    assert!(!is_power_of_two(usize::MAX));
}

#[test]
fn to_binary_conversion() {
    assert_eq!(to_binary(2, 4), vec![0, 1, 0, 0]);
    assert_eq!(to_binary(10, 4), vec![0, 1, 0, 1]);
    assert_eq!(to_binary(5, 8), vec![1, 0, 1, 0, 0, 0, 0, 0]);
}

#[test]
fn to_binary_wider_than_width() {
    assert_eq!(to_binary(5, 2), vec![1, 0, 1]);
    assert_eq!(to_binary(0, 0), vec![0]);
    assert_eq!(to_binary(0, 3), vec![0, 0, 0]);
}

fn g_poly_computation_template() {
    let rng = &mut StdRng::seed_from_u64(0);

    let u = [Scalar::rand(rng), Scalar::rand(rng), Scalar::rand(rng), Scalar::rand(rng)];
    let u_inv: Vec<Scalar> = u.iter().map(|u_i| u_i.inverse().unwrap()).collect();

    let expected_coefficients = vec![u_inv[0], u[0]];
    assert_eq!(
        compute_g(2, 1, &u[..1], &u_inv[..1]),
        Polynomial::from_coefficients_vec(expected_coefficients),
        "computation of *g(X)* failed for k = {}",
        1
    );

    let expected_coefficients = vec![
        u_inv[0].mul(&u_inv[1]),
            u[0].mul(&u_inv[1]),
        u_inv[0].mul(&    u[1]),
            u[0].mul(&    u[1]),
    ];
    assert_eq!(
        compute_g(4, 2, &u[..2], &u_inv[..2]),
        Polynomial::from_coefficients_vec(expected_coefficients),
        "computation of *g(X)* failed for k = {}",
        2
    );

    let expected_coefficients = vec![
        u_inv[0].mul(&u_inv[1]).mul(&u_inv[2]),
            u[0].mul(&u_inv[1]).mul(&u_inv[2]),
        u_inv[0].mul(&    u[1]).mul(&u_inv[2]),
            u[0].mul(&    u[1]).mul(&u_inv[2]),
        u_inv[0].mul(&u_inv[1]).mul(&    u[2]),
            u[0].mul(&u_inv[1]).mul(&    u[2]),
        u_inv[0].mul(&    u[1]).mul(&    u[2]),
            u[0].mul(&    u[1]).mul(&    u[2]),
    ];
    assert_eq!(
        compute_g(8, 3, &u[..3], &u_inv[..3]),
        Polynomial::from_coefficients_vec(expected_coefficients),
        "computation of *g(X)* failed for k = {}",
        3
    );

    let expected_coefficients = vec![
        u_inv[0].mul(&u_inv[1]).mul(&u_inv[2]).mul(&u_inv[3]),
            u[0].mul(&u_inv[1]).mul(&u_inv[2]).mul(&u_inv[3]),
        u_inv[0].mul(&    u[1]).mul(&u_inv[2]).mul(&u_inv[3]),
            u[0].mul(&    u[1]).mul(&u_inv[2]).mul(&u_inv[3]),
        u_inv[0].mul(&u_inv[1]).mul(&    u[2]).mul(&u_inv[3]),
            u[0].mul(&u_inv[1]).mul(&    u[2]).mul(&u_inv[3]),
        u_inv[0].mul(&    u[1]).mul(&    u[2]).mul(&u_inv[3]),
            u[0].mul(&    u[1]).mul(&    u[2]).mul(&u_inv[3]),
        u_inv[0].mul(&u_inv[1]).mul(&u_inv[2]).mul(&    u[3]),
            u[0].mul(&u_inv[1]).mul(&u_inv[2]).mul(&    u[3]),
        u_inv[0].mul(&    u[1]).mul(&u_inv[2]).mul(&    u[3]),
            u[0].mul(&    u[1]).mul(&u_inv[2]).mul(&    u[3]),
        u_inv[0].mul(&u_inv[1]).mul(&    u[2]).mul(&    u[3]),
            u[0].mul(&u_inv[1]).mul(&    u[2]).mul(&    u[3]),
        u_inv[0].mul(&    u[1]).mul(&    u[2]).mul(&    u[3]),
            u[0].mul(&    u[1]).mul(&    u[2]).mul(&    u[3]),
    ];
    assert_eq!(
        compute_g(16, 4, &u[..4], &u_inv[..4]),
        Polynomial::from_coefficients_vec(expected_coefficients),
        "computation of *g(X)* failed for k = {}",
        4
    );
}

#[test]
fn g_poly_computation() {
    g_poly_computation_template();
}
