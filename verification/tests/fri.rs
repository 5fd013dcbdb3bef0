use ark_bls12_381::Fr;
use ark_ff::PrimeField;
use dragoonfri::algorithms::{Blake3, Sha3_256, Sha3_512};
use dragoonfri::frida::{FridaBuilder, FridaCommitment};
use dragoonfri::rng::FriChallenger;
use dragoonfri::utils::HasherExt;
use komodo::fec::Shard;
use komodo::field::Scalar;
use komodo::fri::{decode, encode, evaluate, transpose};
use rs_merkle::Hasher;

fn bytes() -> Vec<u8> {
    (0..2000).map(|i: usize| ((i * 97 + 13) % 253) as u8).collect()
}

fn to_fr(s: &Scalar) -> Fr {
    Fr::from_le_bytes_mod_order(&s.to_bytes_le())
}

fn run<H: Hasher>(bytes: &[u8], k: usize, n: usize, bf: usize, rpo: usize, q: usize)
where
    <H as Hasher>::Hash: AsRef<[u8]>,
{
    let evaluations = evaluate(bytes, k, n);

    let shards = encode(bytes, &evaluations, k);

    let rows: Vec<Vec<Fr>> = evaluations.iter().map(|r| r.iter().map(to_fr).collect()).collect();
    let builder = FridaBuilder::<Fr, H>::new::<2, _>(&rows, FriChallenger::<H>::default(), bf, rpo, q);

    let commitment = FridaCommitment::from(builder.clone());
    let proofs: Vec<_> = (0..n).map(|i| (builder.prove_shards(&[i]), i)).collect();

    for (shard, (path, position)) in shards.iter().zip(proofs.iter()) {
        commitment.verify::<2, _>(FriChallenger::<H>::default(), q, shard.k as usize, n).unwrap();
        let data: Vec<Fr> = shard.data.iter().map(to_fr).collect();
        assert!(path.verify(commitment.tree_root(), &[*position], &[H::hash_item(&data)], n));
    }

    assert_eq!(decode(&shards.into_iter().enumerate().collect::<Vec<_>>(), n), bytes);
}

#[test]
fn fri_end_to_end() {
    for (k, n, bf, rpo, q) in [(4, 8, 2, 1, 50), (4, 8, 2, 2, 50)] {
        run::<Blake3>(&bytes(), k, n, bf, rpo, q);
        run::<Sha3_256>(&bytes(), k, n, bf, rpo, q);
        run::<Sha3_512>(&bytes(), k, n, bf, rpo, q);
    }
}

#[test]
fn fri_shards_are_the_columns() {
    let data = bytes();
    let evaluations = evaluate(&data, 4, 8);
    assert_eq!(evaluations.len(), 17);
    assert!(evaluations.iter().all(|r| r.len() == 8));
    let shards: Vec<Shard> = encode(&data, &evaluations, 4);
    assert_eq!(shards.len(), 8);
    for (i, shard) in shards.iter().enumerate() {
        assert_eq!(shard.k, 4);
        assert!(shard.linear_combination.is_empty());
        assert_eq!(shard.size, data.len());
        assert_eq!(shard.data, evaluations.iter().map(|r| r[i]).collect::<Vec<_>>());
    }
}

#[test]
fn fri_evaluations_of_a_constant() {
    // one row of field elements [1, 0, 0, 0] evaluates to ones everywhere
    let mut data = vec![0u8; 4 * 31];
    data[0] = 1;
    let evaluations = evaluate(&data, 4, 8);
    assert_eq!(evaluations.len(), 1);
    assert!(evaluations[0].iter().all(|e| *e == Scalar::one()));
}

#[test]
fn fri_decode_from_a_subset() {
    let data = bytes();
    let evaluations = evaluate(&data, 4, 8);
    let shards = encode(&data, &evaluations, 4);
    let blocks: Vec<(usize, Shard)> = shards.into_iter().enumerate().filter(|(i, _)| i % 2 == 1).collect();
    assert_eq!(decode(&blocks, 8), data);
}

#[test]
fn transpose_of_rows() {
    let rows = vec![vec![1, 2, 3], vec![4, 5, 6]];
    assert_eq!(transpose(&rows), vec![vec![1, 4], vec![2, 5], vec![3, 6]]);
}

#[test]
fn fri_decode_positions_modulo_the_domain() {
    let data = bytes();
    let evaluations = evaluate(&data, 4, 8);
    let shards = encode(&data, &evaluations, 4);
    let blocks: Vec<(usize, Shard)> = shards.into_iter().enumerate().take(4).map(|(i, s)| (i + 8, s)).collect();
    assert_eq!(decode(&blocks, 8), data);
}
