use ark_bls12_381::{Fr, G1Affine};
use ark_ec::{AffineRepr, CurveGroup};
use ark_ff::{Field, PrimeField};
use ark_serialize::{CanonicalDeserialize, CanonicalSerialize};
use ark_std::rand::rngs::StdRng;
use ark_std::rand::SeedableRng;
use komodo::algebra::linalg::Matrix;
use komodo::curve::G1;
use komodo::error::KomodoError;
use komodo::fec::{encode, recode_random};
use komodo::field::Scalar;
use komodo::semi_avid::{commit, verify, Commitment};
use komodo::zk::{self, setup};

/// Some bytes that stand for a small image.
fn bytes() -> Vec<u8> {
    (0..1500u32).map(|i| ((i * 131 + 7) % 253) as u8).collect()
}

fn rng() -> StdRng {
    StdRng::seed_from_u64(0)
}

/// verify all `n` shards
fn verify_template(bytes: &[u8], encoding_mat: &Matrix) -> Result<(), KomodoError> {
    let rng = &mut rng();

    let powers = setup(bytes.len(), rng)?;

    let shards = encode(bytes, encoding_mat)?;
    let commitment = commit(bytes, &powers, encoding_mat.height)?;

    for shard in &shards {
        assert!(verify(shard, &commitment, &powers)?);
    }

    Ok(())
}

fn to_ark(p: &G1) -> G1Affine {
    G1Affine::deserialize_compressed(p.to_bytes().as_slice()).unwrap()
}

fn from_ark(p: G1Affine) -> G1 {
    let mut bytes = Vec::new();
    p.serialize_compressed(&mut bytes).unwrap();
    G1::from_bytes(bytes).unwrap()
}

/// attack a part of the commitment
fn attack(commitment: &Commitment, c: usize, base: u128, pow: u64) -> Commitment {
    let a = Fr::from_le_bytes_mod_order(&base.to_le_bytes());
    let mut commits: Vec<G1Affine> = commitment.0.iter().map(|c| to_ark(&c.0)).collect();
    commits[c] = (commits[c].into_group() * a.pow([pow])).into_affine();

    Commitment(commits.iter().map(|&c| zk::Commitment(from_ark(c))).collect())
}

/// verify all `n` shards and then make sure an attacked shard does not verify
fn verify_with_errors_template(
    bytes: &[u8],
    encoding_mat: &Matrix,
    attacks: &[(usize, usize, u128, u64)],
) -> Result<(), KomodoError> {
    let rng = &mut rng();

    let powers = setup(bytes.len(), rng)?;

    let shards = encode(bytes, encoding_mat)?;
    let commitment = commit(bytes, &powers, encoding_mat.height)?;

    for shard in &shards {
        assert!(verify(shard, &commitment, &powers)?);
    }

    for &(b, c, base, pow) in attacks {
        assert!(!verify(&shards[b], &attack(&commitment, c, base, pow), &powers)?);
    }

    Ok(())
}

/// make sure recoded shards still verify correctly
fn verify_recoding_template(
    bytes: &[u8],
    encoding_mat: &Matrix,
    recodings: &[Vec<usize>],
) -> Result<(), KomodoError> {
    let rng = &mut rng();

    let powers = setup(bytes.len(), rng)?;

    let shards = encode(bytes, encoding_mat)?;
    let commitment = commit(bytes, &powers, encoding_mat.height)?;

    let min_nb_shards = recodings.iter().flatten().max().unwrap() + 1;
    assert!(
        shards.len() >= min_nb_shards,
        "not enough shards, expected {}, found {}",
        min_nb_shards,
        shards.len()
    );

    for shard_indices in recodings {
        assert!(verify(
            &recode_random(&shard_indices.iter().map(|&i| shards[i].clone()).collect::<Vec<_>>(), rng)
                .unwrap()
                .unwrap(),
            &commitment,
            &powers
        )?);
    }

    Ok(())
}

/// run the `test` with a _(k, n)_ encoding and on both a random and a Vandermonde encoding
fn run_template<Fun>(k: usize, n: usize, test: Fun)
where
    Fun: Fn(&[u8], &Matrix) -> Result<(), KomodoError>,
{
    let mut rng = rng();

    let bytes = bytes();

    let test_case = format!("TEST | data: {} bytes, k: {}, n: {}", bytes.len(), k, n);

    test(&bytes, &Matrix::random(k, n, &mut rng))
        .unwrap_or_else(|_| panic!("verification failed for bls12-381 and random encoding matrix\n{test_case}"));
    test(
        &bytes,
        &Matrix::vandermonde_unchecked(
            &(0..n).map(|i| Scalar::from_le_bytes_mod_order(&i.to_le_bytes())).collect::<Vec<_>>(),
            k,
        ),
    )
    .unwrap_or_else(|_| panic!("verification failed for bls12-381 and Vandermonde encoding matrix\n{test_case}"));
}

#[test]
fn verification() {
    run_template(3, 6, verify_template);
}

#[test]
fn semi_avid_verify_with_errors() {
    run_template(3, 6, |b, m| verify_with_errors_template(b, m, &[(0, 0, 123u128, 4321u64)]));
}

#[test]
fn verify_recoding() {
    run_template(3, 6, |b, m| verify_recoding_template(b, m, &[vec![2, 3], vec![3, 5]]));
}

#[test]
fn commit_with_too_small_setup() {
    let rng = &mut rng();
    let powers = setup(2, rng).unwrap();
    let data = bytes();
    assert!(matches!(
        commit(&data, &powers, 3),
        Err(KomodoError::TooFewPowersInTrustedSetup { powers: 3, .. })
    ));
}

#[test]
fn commitment_index() {
    let rng = &mut rng();
    let data = bytes();
    let powers = setup(data.len(), rng).unwrap();
    let commitment = commit(&data, &powers, 3).unwrap();
    assert_eq!(commitment.0.len(), 3);
    assert_eq!(commitment.index(1), &commitment.0[1].0);
}

#[test]
fn g1_bytes_round_trip() {
    let p = G1Affine::generator();
    let q = from_ark(p);
    assert_eq!(to_ark(&q), p);
    assert!(G1::from_bytes(vec![1, 2, 3]).is_none());
}

#[test]
fn g1_from_bytes_refuses_non_canonical_encodings() {
    let mut bytes = Vec::new();
    G1Affine::generator().serialize_compressed(&mut bytes).unwrap();
    let mut longer = bytes.clone();
    longer.push(0);
    assert!(G1Affine::deserialize_compressed(longer.as_slice()).is_ok());
    assert!(G1::from_bytes(longer).is_none());

    let mut infinity = vec![0u8; 48];
    infinity[0] = 0xc0;
    let zero = G1::from_bytes(infinity.clone()).unwrap();
    assert_eq!(to_ark(&zero), G1Affine::zero());
    let mut flagged = infinity.clone();
    flagged[0] = 0xe0;
    assert!(G1Affine::deserialize_compressed(flagged.as_slice()).is_ok());
    assert!(G1::from_bytes(flagged).is_none());
    let mut dirty = infinity;
    dirty[47] = 1;
    assert!(G1::from_bytes(dirty).is_none());
}
