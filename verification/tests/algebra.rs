use ark_bls12_381::{Bls12_381, G1Projective, G2Projective};
use ark_ec::pairing::Pairing;
use ark_ec::CurveGroup;
use ark_serialize::CanonicalSerialize;
use ark_std::UniformRand;
use komodo::algebra::scalar_product_pairing;
use komodo::curve::{G1, G2};
use ark_std::rand::rngs::StdRng;
use ark_std::rand::SeedableRng;
use komodo::algebra::poly::Polynomial;
use komodo::algebra::vector::zero;
use komodo::algebra::{
    merge_elements_into_bytes, powers_of, scalar_product, scalar_product_polynomial,
    split_data_into_field_elements,
};
use komodo::field::Scalar;

const MODULUS_BYTE_SIZE: usize = 31;

/// Some bytes that stand for a small file.
fn bytes() -> Vec<u8> {
    (0..1000u32).map(|i| ((i * 37 + 11) % 251) as u8).collect()
}

fn split_data_template(bytes: &[u8], modulus: usize, exact_length: Option<usize>) {
    let test_case = format!("TEST | modulus: {}, exact_length: {:?}", modulus, exact_length);

    let elements = split_data_into_field_elements(bytes, modulus);
    assert!(
        elements.len() % modulus == 0,
        "number of elements should be divisible by {}, found {}\n{test_case}",
        modulus,
        elements.len(),
    );

    if let Some(length) = exact_length {
        assert!(
            elements.len() == length,
            "number of elements should be exactly {}, found {}\n{test_case}",
            length,
            elements.len(),
        );
    }

    assert!(
        !elements.iter().any(|e| e.is_zero()),
        "elements should not contain any 0\n{test_case}"
    );
}

#[test]
fn mod_split_data() {
    split_data_template(&bytes(), 1, None);
    split_data_template(&bytes(), 8, None);
    split_data_template(&[], 1, None);
    split_data_template(&[], 8, None);

    for n in (10 * MODULUS_BYTE_SIZE + 1)..(11 * MODULUS_BYTE_SIZE) {
        split_data_template(&bytes()[..n], 1, Some(11));
        split_data_template(&bytes()[..n], 8, Some(16));
    }
}

#[test]
fn field_split_data() {
    split_data_template(&bytes(), 1, None);
    split_data_template(&bytes(), 8, None);
    split_data_template(&[], 1, None);
    split_data_template(&[], 8, None);

    let nb_bytes = 11 * MODULUS_BYTE_SIZE;
    split_data_template(&bytes()[..nb_bytes], 1, Some(11));
    split_data_template(&bytes()[..nb_bytes], 8, Some(16));

    let nb_bytes = 11 * MODULUS_BYTE_SIZE - 10;
    split_data_template(&bytes()[..nb_bytes], 1, Some(11));
    split_data_template(&bytes()[..nb_bytes], 8, Some(16));
}

fn split_and_merge_template(bytes: &[u8], modulus: usize) {
    let elements = split_data_into_field_elements(bytes, modulus);
    let mut actual = merge_elements_into_bytes(&elements);
    actual.resize(bytes.len(), 0);
    assert_eq!(bytes, actual, "TEST | modulus: {modulus}");
}

#[test]
fn mod_split_and_merge() {
    for i in 0..12 {
        split_and_merge_template(&bytes(), 1 << i);
    }
}

#[test]
fn field_split_and_merge() {
    split_and_merge_template(&bytes(), 1);
    split_and_merge_template(&bytes(), 8);
    split_and_merge_template(&bytes(), 64);
    split_and_merge_template(&bytes(), 4096);
}

#[test]
fn split_pads_with_ones() {
    let elements = split_data_into_field_elements(&[1, 2, 3], 4);
    assert_eq!(
        elements,
        vec![Scalar::from_u128(1 + 2 * 256 + 3 * 65536), Scalar::one(), Scalar::one(), Scalar::one()]
    );
    let bytes = merge_elements_into_bytes(&elements[..1]);
    assert_eq!(bytes.len(), 31);
    assert_eq!(&bytes[..4], &[1, 2, 3, 0]);
}

fn pow(x: Scalar, e: usize) -> Scalar {
    let mut r = Scalar::one();
    for _ in 0..e {
        r = r.mul(&x);
    }
    r
}

fn powers_of_template() {
    let rng = &mut StdRng::seed_from_u64(0);

    const POWER: usize = 10;
    let r = Scalar::rand(rng);

    let res = powers_of(r, POWER + 1);
    assert_eq!(res.len(), POWER + 1);
    assert_eq!(res.last().unwrap(), &pow(r, POWER));
}

#[test]
fn mod_powers_of() {
    powers_of_template();
}

#[test]
fn algebra_powers_of() {
    powers_of_template();
}

#[test]
fn powers_of_small_cases() {
    assert_eq!(powers_of(Scalar::from_u128(3), 0), Vec::<Scalar>::new());
    assert_eq!(powers_of(Scalar::from_u128(3), 1), vec![Scalar::one()]);
    assert_eq!(
        powers_of(Scalar::from_u128(3), 4),
        vec![Scalar::one(), Scalar::from_u128(3), Scalar::from_u128(9), Scalar::from_u128(27)]
    );
}

fn vec_to_elements(elements: &[u8]) -> Vec<Scalar> {
    elements.iter().map(|&x| Scalar::from_le_bytes_mod_order(&[x])).collect()
}

fn polynomial_template() {
    let polynomials = vec![
        Polynomial::from_coefficients_vec(vec_to_elements(&[1])),
        Polynomial::from_coefficients_vec(vec_to_elements(&[0, 1])),
        Polynomial::from_coefficients_vec(vec_to_elements(&[0, 0, 1])),
        Polynomial::from_coefficients_vec(vec_to_elements(&[0, 0, 0, 1])),
    ];
    let coeffs = vec_to_elements(&[2, 3, 4, 5]);

    assert_eq!(
        scalar_product_polynomial(&coeffs, &polynomials),
        Polynomial::from_coefficients_vec(coeffs)
    )
}

#[test]
fn mod_polynomial() {
    polynomial_template();
}

#[test]
fn algebra_polynomial() {
    polynomial_template();
}

fn scalar_template(lhs: &[u8], rhs: &[u8], result: u8) {
    let lhs = lhs.iter().map(|x| Scalar::from_le_bytes_mod_order(&[*x])).collect::<Vec<_>>();
    let rhs = rhs.iter().map(|x| Scalar::from_le_bytes_mod_order(&[*x])).collect::<Vec<_>>();
    let result = Scalar::from_le_bytes_mod_order(&[result]);

    assert_eq!(scalar_product(&lhs, &rhs), result);
}

#[test]
fn mod_scalar() {
    scalar_template(&[1, 2], &[3, 4], 11);
    scalar_template(&[5, 6], &[7, 8], 83);
}

#[test]
fn algebra_scalar() {
    scalar_template(&[1, 2], &[3, 4], 11);
    scalar_template(&[5, 6], &[7, 8], 83);
}

#[test]
fn scalar_product_uses_the_common_length() {
    let lhs = vec_to_elements(&[1, 2, 3]);
    let rhs = vec_to_elements(&[4, 5]);
    assert_eq!(scalar_product(&lhs, &rhs), Scalar::from_u128(14));
    assert_eq!(scalar_product(&[], &rhs), Scalar::zero());
}

#[test]
fn zero_vector() {
    assert_eq!(zero(3), vec![Scalar::zero(); 3]);
    assert!(zero(0).is_empty());
}

#[test]
fn polynomial_trims_and_adds() {
    let p = Polynomial::from_coefficients_vec(vec_to_elements(&[1, 2, 0, 0]));
    assert_eq!(p.coeffs, vec_to_elements(&[1, 2]));
    assert_eq!(p.degree(), 1);
    assert_eq!(Polynomial::from_coefficients_vec(vec![]).degree(), 0);
    let q = Polynomial::from_coefficients_vec(vec![Scalar::one(), Scalar::one().neg()]);
    let s = p.add(&q);
    assert_eq!(s.coeffs, vec_to_elements(&[2, 1]));
    let minus_p = p.scale(Scalar::one().neg());
    assert_eq!(p.add(&minus_p), Polynomial::zero());
}

fn pairing_template() {
    let rng = &mut StdRng::seed_from_u64(0);

    let p = G1Projective::rand(rng).into_affine();
    let q = G2Projective::rand(rng).into_affine();

    let pairing = Bls12_381::pairing(p, q);
    let two_pairings = pairing + pairing;

    let mut p_bytes = Vec::new();
    p.serialize_compressed(&mut p_bytes).unwrap();
    let mut q_bytes = Vec::new();
    q.serialize_compressed(&mut q_bytes).unwrap();
    let g_1 = G1::from_bytes(p_bytes).unwrap();
    let g_2 = G2::from_bytes(q_bytes).unwrap();

    let mut expected = Vec::new();
    two_pairings.serialize_compressed(&mut expected).unwrap();
    assert_eq!(
        scalar_product_pairing(&[g_1.clone(), g_1], &[g_2.clone(), g_2]).to_bytes(),
        expected
    );
}

#[test]
fn algebra_pairing() {
    pairing_template();
}

#[test]
fn mod_pairing() {
    pairing_template();
}
