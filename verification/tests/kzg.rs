use ark_bls12_381::{Bls12_381, Fr, G1Affine, G2Affine};
use ark_ec::{AffineRepr, CurveGroup};
use ark_ff::{Field, PrimeField};
use ark_poly::univariate::DensePolynomial;
use ark_poly_commit::kzg10::KZG10;
use ark_serialize::{CanonicalDeserialize, CanonicalSerialize};
use ark_std::rand::rngs::StdRng;
use ark_std::rand::SeedableRng;
use komodo::algebra::linalg::Matrix;
use komodo::algebra::poly::Polynomial;
use komodo::algebra::split_data_into_field_elements;
use komodo::conversions::u32_to_u8_vec;
use komodo::curve::{G1, G2};
use komodo::error::KomodoError;
use komodo::fec::{encode, Shard};
use komodo::field::Scalar;
use komodo::kzg::{batch_verify, commit, prove, verify, Commitment, Proof};
use komodo::kzg10::{UniversalParams, VerifierKey};
use komodo::zk::trim;

const MODULUS_BYTE_SIZE: usize = 31;

fn bytes(k: usize, nb_polynomials: usize) -> Vec<u8> {
    let nb_bytes = k * nb_polynomials * MODULUS_BYTE_SIZE;
    (0..nb_bytes).map(|i| ((i * 89 + 5) % 241) as u8).collect()
}

fn to_g1(p: &G1Affine) -> G1 {
    let mut bytes = Vec::new();
    p.serialize_compressed(&mut bytes).unwrap();
    G1::from_bytes(bytes).unwrap()
}

fn to_g2(p: &G2Affine) -> G2 {
    let mut bytes = Vec::new();
    p.serialize_compressed(&mut bytes).unwrap();
    G2::from_bytes(bytes).unwrap()
}

fn universal_params(degree: usize, rng: &mut StdRng) -> UniversalParams {
    let pp = KZG10::<Bls12_381, DensePolynomial<Fr>>::setup(degree, false, rng).unwrap();
    UniversalParams {
        powers_of_g: pp.powers_of_g.iter().map(to_g1).collect(),
        powers_of_gamma_g: (0..pp.powers_of_gamma_g.len()).map(|i| to_g1(&pp.powers_of_gamma_g[&i])).collect(),
        h: to_g2(&pp.h),
        beta_h: to_g2(&pp.beta_h),
    }
}

fn point(i: u32) -> Scalar {
    Scalar::from_le_bytes_mod_order(&u32_to_u8_vec(i))
}

#[allow(clippy::type_complexity)]
fn test_setup(bytes: &[u8], k: usize, n: usize) -> (Vec<(Shard, Proof)>, Commitment, VerifierKey) {
    let degree = bytes.len() / MODULUS_BYTE_SIZE;

    let rng = &mut StdRng::seed_from_u64(0);

    let params = universal_params(degree, rng);
    let (powers, verifier_key) = trim(params, degree);

    let elements = split_data_into_field_elements(bytes, k);
    let mut polynomials = Vec::new();
    for chunk in elements.chunks(k) {
        polynomials.push(Polynomial::from_coefficients_vec(chunk.to_vec()))
    }

    let commitment = commit(&powers, &polynomials).unwrap();

    let encoding_points = (0..n).map(|i| Scalar::from_le_bytes_mod_order(&i.to_le_bytes())).collect::<Vec<_>>();
    let encoding_mat = Matrix::vandermonde_unchecked(&encoding_points, k);
    let shards = encode(bytes, &encoding_mat).unwrap_or_else(|_| panic!("could not encode"));

    let proofs = prove(&polynomials, &shards, &encoding_points, &powers).expect("KZG+ proof failed");

    (shards.into_iter().zip(proofs).collect::<Vec<_>>(), commitment, verifier_key)
}

fn verify_template(bytes: &[u8], k: usize, n: usize) {
    let (blocks, commitment, verifier_key) = test_setup(bytes, k, n);

    for (i, (s, p)) in blocks.iter().enumerate() {
        assert!(verify(s, &commitment, p, point(i as u32), &verifier_key), "could not verify block {}", i);
    }

    assert!(
        batch_verify(&blocks[1..3], &commitment, &[point(1), point(2), point(3)], &verifier_key).unwrap(),
        "could not batch-verify blocks 1..3"
    );
}

#[test]
fn kzg_verify_2() {
    let bytes = bytes(4, 2);
    verify_template(&bytes, 4, 6);
    verify_template(&bytes[0..(bytes.len() - 33)], 4, 6);
}

#[test]
fn kzg_verify_4() {
    let bytes = bytes(4, 4);
    verify_template(&bytes, 4, 6);
    verify_template(&bytes[0..(bytes.len() - 33)], 4, 6);
}

#[test]
fn verify_6() {
    let bytes = bytes(4, 6);
    verify_template(&bytes, 4, 6);
    verify_template(&bytes[0..(bytes.len() - 33)], 4, 6);
}

fn verify_with_errors_template(bytes: &[u8], k: usize, n: usize) {
    let (blocks, commitment, verifier_key) = test_setup(bytes, k, n);

    for (i, (s, p)) in blocks.iter().enumerate() {
        assert!(verify(s, &commitment, p, point(i as u32), &verifier_key), "could not verify block {}", i);
    }

    assert!(
        batch_verify(&blocks[1..3], &commitment, &[point(1), point(2), point(3)], &verifier_key).unwrap(),
        "could not batch-verify blocks 1..3"
    );

    let (shard, mut proof) = blocks[0].clone();
    let a = Fr::from_le_bytes_mod_order(&123u128.to_le_bytes());
    let w = G1Affine::deserialize_compressed(proof.0.to_bytes().as_slice()).unwrap();
    proof.0 = to_g1(&(w.into_group() * a.pow([4321_u64])).into_affine());

    assert!(!verify(&shard, &commitment, &proof, point(0), &verifier_key));

    let mut bad_blocks = blocks[1..3].to_vec();
    bad_blocks[0].1 = proof;
    assert!(!batch_verify(&bad_blocks, &commitment, &[point(1), point(2)], &verifier_key).unwrap());
}

#[test]
fn kzg_verify_with_errors_2() {
    let bytes = bytes(4, 2);
    verify_with_errors_template(&bytes, 4, 6);
    verify_with_errors_template(&bytes[0..(bytes.len() - 33)], 4, 6);
}

#[test]
fn kzg_verify_with_errors_4() {
    let bytes = bytes(4, 4);
    verify_with_errors_template(&bytes, 4, 6);
    verify_with_errors_template(&bytes[0..(bytes.len() - 33)], 4, 6);
}

#[test]
fn verify_with_errors_6() {
    let bytes = bytes(4, 6);
    verify_with_errors_template(&bytes, 4, 6);
    verify_with_errors_template(&bytes[0..(bytes.len() - 33)], 4, 6);
}

#[test]
fn commit_and_prove_errors() {
    let rng = &mut StdRng::seed_from_u64(1);
    let params = universal_params(4, rng);
    let (powers, _) = trim(params, 2);
    let big = Polynomial::from_coefficients_vec((1..=5u128).map(Scalar::from_u128).collect());
    let expected = "the number of coefficients in the polynomial (5) is greater thanthe maximum number of powers in `Powers` (3)";
    assert_eq!(
        commit(&powers, &[big.clone()]),
        Err(KomodoError::Other(format!("Serialization: {expected}")))
    );
    let shard = Shard { k: 1, linear_combination: vec![], hash: vec![], data: vec![Scalar::one()], size: 0 };
    assert_eq!(
        prove(&[big], &[shard], &[Scalar::one()], &powers),
        Err(KomodoError::Other(format!("kzg open error: {expected}")))
    );
}

#[test]
fn opening_commits_to_the_quotient_by_x_minus_z() {
    let rng = &mut StdRng::seed_from_u64(2);
    let params = universal_params(4, rng);
    let (powers, _) = trim(params, 3);
    let s = |v: u128| Scalar::from_u128(v);
    // 1 + 2X + 3X^2 = (8 + 3X)(X - 2) + 17
    let p = Polynomial::from_coefficients_vec(vec![s(1), s(2), s(3)]);
    let q = Polynomial::from_coefficients_vec(vec![s(8), s(3)]);
    let proof = komodo::kzg10::open(&powers, &p, &s(2)).unwrap();
    assert!(proof.random_v.is_none());
    assert_eq!(commit(&powers, &[q]).unwrap().0[0], proof.w);

    let constant = Polynomial::from_coefficients_vec(vec![s(5)]);
    let proof = komodo::kzg10::open(&powers, &constant, &s(2)).unwrap();
    assert_eq!(to_ark_g1(&proof.w), G1Affine::zero());
}

fn to_ark_g1(p: &G1) -> G1Affine {
    G1Affine::deserialize_compressed(p.to_bytes().as_slice()).unwrap()
}
