use ark_std::rand::rngs::StdRng;
use ark_std::rand::SeedableRng;
use komodo::algebra::linalg::Matrix;
use komodo::algebra::poly::Polynomial;
use komodo::algebra::{powers_of, scalar_product_g1, scalar_product_pairing, split_data_into_field_elements};
use komodo::aplonk::ipa::Proof;
use komodo::aplonk::{commit, prove, setup, Block};
use komodo::conversions::u32_to_u8_vec;
use komodo::curve::{Gt, G1, G2};
use komodo::fec::encode;
use komodo::field::Scalar;
use komodo::kzg10::VerifierKey;
use komodo::zk::trim;

const MODULUS_BYTE_SIZE: usize = 31;
const DEGREE_BOUND: usize = 32;

fn ipa_setup(k: usize, degree: usize) -> (Vec<G2>, Gt, Scalar, G1, Proof) {
    let rng = &mut StdRng::seed_from_u64(0);

    let mu: Vec<G1> = (0..k).map(|_| G1::rand(rng)).collect();

    let params = setup(degree, k, rng).unwrap();
    let ck_tau = params.ipa.ck_tau;

    let r = Scalar::rand(rng);

    let c_g = scalar_product_pairing(&mu, &ck_tau);
    let p = scalar_product_g1(&mu, &powers_of(r, k));

    let (proof, _) = komodo::aplonk::ipa::prove(k, &ck_tau, &c_g, r, &p, &mu).unwrap();

    (ck_tau, c_g, r, p, proof)
}

fn ipa_verify_template(k: usize, degree: usize) {
    let (ck_tau, c_g, r, p, proof) = ipa_setup(k, degree);

    assert!(
        komodo::aplonk::ipa::verify(k, Some(&ck_tau), &c_g, r, &p, &proof).unwrap(),
        "IPA failed for bls12-381 and k = {}",
        k
    );
}

fn ipa_verify_with_errors_template(k: usize, degree: usize) {
    let (ck_tau, c_g, r, p, mut proof) = ipa_setup(k, degree);

    // byte 10 of the serialized proof: byte 2 of the first $L_G$, after the
    // eight bytes of the length of $L_G$
    let mut bytes = proof.l_g[0].to_bytes();
    bytes[2] += 1;
    proof.l_g[0] = Gt::from_bytes(bytes).expect("Could not deserialize the corrupted proof");
    assert!(
        !komodo::aplonk::ipa::verify(k, Some(&ck_tau), &c_g, r, &p, &proof).unwrap(),
        "IPA should fail for bls12-381, k = {} and a corrupted proof",
        k
    );
}

#[test]
fn verify() {
    for k in [2, 4, 8, 16, 32] {
        ipa_verify_template(k, DEGREE_BOUND);
    }
}

#[test]
fn ipa_verify_with_errors() {
    for k in [2, 4, 8, 16, 32] {
        ipa_verify_with_errors_template(k, DEGREE_BOUND);
    }
}

#[test]
fn ipa_proof_serialization() {
    let (_, _, _, _, proof) = ipa_setup(4, DEGREE_BOUND);
    let bytes = proof.to_bytes();
    // two rounds: two elements of $\mathbb{G}_T$ twice, two points of
    // $\mathbb{G}_1$ twice, four lengths, $\mu_0$ and $ck_0$
    assert_eq!(bytes.len(), 4 * 8 + 2 * 2 * 576 + 2 * 2 * 48 + 48 + 96);
    assert_eq!(&bytes[0..8], &[2, 0, 0, 0, 0, 0, 0, 0]);
    assert_eq!(&bytes[8..584], &proof.l_g[0].to_bytes()[..]);
    assert_eq!(&bytes[bytes.len() - 96..], &proof.ck_tau_0.to_bytes()[..]);
}

#[test]
fn ipa_verify_without_power_of_two() {
    let (ck_tau, c_g, r, p, proof) = ipa_setup(4, DEGREE_BOUND);
    assert!(komodo::aplonk::ipa::verify(3, Some(&ck_tau), &c_g, r, &p, &proof).is_err());
}

fn bytes(k: usize, nb_polynomials: usize) -> Vec<u8> {
    let nb_bytes = k * nb_polynomials * MODULUS_BYTE_SIZE;
    (0..nb_bytes).map(|i| ((i * 131 + 17) % 251) as u8).collect()
}

#[allow(clippy::type_complexity)]
fn test_setup(bytes: &[u8], k: usize, n: usize) -> (Vec<Block>, (VerifierKey, G1), (G1, G2)) {
    let rng = &mut StdRng::seed_from_u64(0);

    let degree = k - 1;
    let vector_length_bound = bytes.len() / MODULUS_BYTE_SIZE / (degree + 1);

    let params = setup(degree, vector_length_bound, rng).unwrap();
    let (_, vk_psi) = trim(params.kzg.clone(), degree);

    let elements = split_data_into_field_elements(bytes, k);
    let mut polynomials = Vec::new();
    for chunk in elements.chunks(k) {
        polynomials.push(Polynomial::from_coefficients_vec(chunk.to_vec()))
    }

    let commit = commit(polynomials.clone(), params.clone()).unwrap();

    let encoding_points = (0..n).map(|i| Scalar::from_le_bytes_mod_order(&i.to_le_bytes())).collect::<Vec<_>>();
    let encoding_mat = Matrix::vandermonde_unchecked(&encoding_points, k);
    let shards = encode(bytes, &encoding_mat).unwrap_or_else(|_| panic!("could not encode"));

    let blocks = prove(commit, polynomials, shards, encoding_points.clone(), params.clone()).unwrap();

    (blocks, (vk_psi, params.ipa.tau_1), (params.kzg.powers_of_g[0].clone(), params.kzg.h.clone()))
}

fn verify_template(bytes: &[u8], k: usize, n: usize) {
    let (blocks, (vk_psi, tau_1), (g_1, g_2)) = test_setup(bytes, k, n);

    for (i, block) in blocks.iter().enumerate() {
        assert!(komodo::aplonk::verify(
            block,
            Scalar::from_le_bytes_mod_order(&u32_to_u8_vec(i as u32)),
            &vk_psi,
            &tau_1,
            &g_1,
            &g_2
        )
        .unwrap());
    }
}

fn pow(a: Scalar, e: u64) -> Scalar {
    let mut r = Scalar::one();
    for _ in 0..e {
        r = r.mul(&a);
    }
    r
}

fn verify_with_errors_template(bytes: &[u8], k: usize, n: usize) {
    let (blocks, (vk_psi, tau_1), (g_1, g_2)) = test_setup(bytes, k, n);

    for (i, block) in blocks.iter().enumerate() {
        let mut b = block.clone();
        // modify a field in the struct b to corrupt the block proof without corrupting the data serialization
        let a = Scalar::from_le_bytes_mod_order(&[123]);
        b.ipa_proof.l_r[0] = b.ipa_proof.l_r[0].mul(&pow(a, 4321));

        assert!(
            !komodo::aplonk::verify(
                &b,
                Scalar::from_le_bytes_mod_order(&u32_to_u8_vec(i as u32)),
                &vk_psi,
                &tau_1,
                &g_1,
                &g_2
            )
            .unwrap(),
            "aPlonK should fail for bls12-381, k = {} and a corrupted block",
            k
        );
    }
}

#[test]
fn mod_verify_2() {
    verify_template(&bytes(4, 2), 4, 6);
}

#[test]
fn mod_verify_4() {
    verify_template(&bytes(4, 4), 4, 6);
}

#[test]
fn verify_8() {
    verify_template(&bytes(4, 8), 4, 6);
}

#[test]
fn mod_verify_with_errors_2() {
    verify_with_errors_template(&bytes(4, 2), 4, 6);
}

#[test]
fn mod_verify_with_errors_4() {
    verify_with_errors_template(&bytes(4, 4), 4, 6);
}

#[test]
fn verify_with_errors_8() {
    verify_with_errors_template(&bytes(4, 8), 4, 6);
}

#[test]
fn setup_of_degree_zero() {
    let rng = &mut StdRng::seed_from_u64(0);
    assert!(setup(0, 4, rng).is_err());
}

#[test]
fn commit_with_a_short_key() {
    let rng = &mut StdRng::seed_from_u64(0);
    let params = setup(3, 2, rng).unwrap();
    let elements = split_data_into_field_elements(&bytes(4, 4), 4);
    let polynomials: Vec<Polynomial> =
        elements.chunks(4).map(|c| Polynomial::from_coefficients_vec(c.to_vec())).collect();
    assert!(commit(polynomials, params).is_err());
}

#[test]
fn setup_sizes() {
    let rng = &mut StdRng::seed_from_u64(0);
    let params = setup(5, 4, rng).unwrap();
    assert_eq!(params.kzg.powers_of_g.len(), 6);
    assert_eq!(params.kzg.powers_of_gamma_g.len(), 7);
    assert_eq!(params.ipa.ck_tau.len(), 4);
    // the first point of the key is $h$ itself, as $\tau^0 = 1$
    assert_eq!(params.ipa.ck_tau[0], params.kzg.h);
    assert_ne!(params.ipa.ck_tau[1], params.kzg.h);
}

#[test]
fn kzg_open_with_too_many_coefficients() {
    let rng = &mut StdRng::seed_from_u64(0);
    let params = setup(3, 2, rng).unwrap();
    let (powers, _) = trim(params.kzg, 1);
    let polynomial = Polynomial::from_coefficients_vec(vec![Scalar::one(); 4]);
    match komodo::kzg10::open(&powers, &polynomial, &Scalar::one()) {
        Err(text) => assert_eq!(
            text,
            "the number of coefficients in the polynomial (4) is greater thanthe maximum number of powers in `Powers` (2)"
        ),
        Ok(_) => panic!("the opening should fail"),
    }
    let small = Polynomial::from_coefficients_vec(vec![Scalar::one(); 2]);
    let proof = komodo::kzg10::open(&powers, &small, &Scalar::one()).unwrap();
    assert!(proof.random_v.is_none());
}

#[test]
fn gt_from_bytes() {
    assert!(Gt::from_bytes(vec![0u8; 3]).is_none());
    let (_, c_g, _, _, _) = ipa_setup(2, DEGREE_BOUND);
    let bytes = c_g.to_bytes();
    assert_eq!(bytes.len(), 576);
    let mut longer = bytes.clone();
    longer.push(0);
    assert!(Gt::from_bytes(longer).is_none());
    assert_eq!(Gt::from_bytes(bytes).unwrap(), c_g);
}
