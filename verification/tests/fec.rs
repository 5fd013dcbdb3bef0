use ark_std::rand::rngs::StdRng;
use ark_std::rand::seq::SliceRandom;
use ark_std::rand::SeedableRng;
use komodo::algebra::linalg::Matrix;
use komodo::algebra::split_data_into_field_elements;
use komodo::error::KomodoError;
use komodo::fec::{contains_one_of, decode, encode, recode_random, recode_with_coeffs, Shard};
use komodo::field::Scalar;

type LC = Vec<usize>;
type LCExclusion = Vec<usize>;

/// Some bytes that stand for a small file.
fn bytes() -> Vec<u8> {
    (0..600u32).map(|i| ((i * 37 + 11) % 251) as u8).collect()
}

fn to_curve(n: u128) -> Scalar {
    Scalar::from_le_bytes_mod_order(&n.to_le_bytes())
}

fn rng() -> StdRng {
    StdRng::seed_from_u64(42)
}

/// All the subsets of `k` indices among `0..n`, in lexicographic order.
fn combinations(n: usize, k: usize) -> Vec<Vec<usize>> {
    fn go(start: usize, n: usize, k: usize, current: &mut Vec<usize>, out: &mut Vec<Vec<usize>>) {
        if current.len() == k {
            out.push(current.clone());
            return;
        }
        for i in start..n {
            current.push(i);
            go(i + 1, n, k, current, out);
            current.pop();
        }
    }
    let mut out = vec![];
    go(0, n, k, &mut vec![], &mut out);
    out
}

#[test]
fn containment() {
    assert!(contains_one_of(&[1, 2, 3], &[vec![1, 2, 3]]));
    assert!(contains_one_of(
        &[3, 6, 8],
        &[vec![2, 4, 6], vec![1, 3, 7], vec![6, 7, 8], vec![3, 6, 8]],
    ));
    assert!(!contains_one_of(
        &[1, 6, 8],
        &[vec![2, 4, 6], vec![1, 3, 7], vec![6, 7, 8], vec![3, 6, 8]],
    ));
    assert!(contains_one_of(
        &[3, 6, 8, 9, 10],
        &[vec![2, 4, 6], vec![1, 3, 7], vec![6, 7, 8], vec![3, 6, 8]],
    ));
    assert!(contains_one_of(&[0, 4, 5], &[vec![2, 3, 5], vec![4, 5]]));
}

fn try_all_decoding_combinations(
    data: &[u8],
    shards: &[Shard],
    k: usize,
    n: usize,
    test_case: &str,
    should_not_be_decodable: Vec<LCExclusion>,
) {
    let there_are_recoded_shards = shards.len() > n;

    for is in combinations(shards.len(), k) {
        if there_are_recoded_shards {
            let contains_recoded_shards = *is.iter().max().unwrap() < n;
            if contains_recoded_shards {
                continue;
            }
        }

        let actual = decode(is.iter().map(|&i| shards[i].clone()).collect());

        if contains_one_of(&is, &should_not_be_decodable) {
            assert!(actual.is_err(), "should not decode with {:?} {test_case}", is);
            continue;
        }

        assert!(actual.is_ok(), "could not decode with {:?} {test_case}", is);
        assert_eq!(data, actual.unwrap(), "bad decoded data with {:?} {test_case}", is);
    }
}

fn end_to_end_template(data: &[u8], k: usize, n: usize) {
    let mut rng = rng();
    let test_case = format!("TEST | data: {} bytes, k: {}, n: {}", data.len(), k, n);

    let shards = encode(data, &Matrix::random(k, n, &mut rng))
        .unwrap_or_else(|_| panic!("could not encode {test_case}"));

    try_all_decoding_combinations(data, &shards, k, n, &test_case, vec![]);
}

fn end_to_end_with_recoding_template(
    data: &[u8],
    k: usize,
    n: usize,
    recoding_steps: Vec<LC>,
    should_not_be_decodable: Vec<LCExclusion>,
    name: &str,
) {
    let mut rng = rng();
    let test_case = format!(
        "TEST | data: {} bytes, k: {}, n: {}, scenario: {}",
        data.len(),
        k,
        n,
        name
    );

    let mut shards = encode(data, &Matrix::random(k, n, &mut rng))
        .unwrap_or_else(|_| panic!("could not encode {test_case}"));

    for step in recoding_steps {
        let shards_to_recode: Vec<_> = shards
            .iter()
            .cloned()
            .enumerate()
            .filter_map(|(i, s)| if step.contains(&i) { Some(s) } else { None })
            .collect();
        shards.push(recode_random(&shards_to_recode, &mut rng).unwrap().unwrap());
    }

    try_all_decoding_combinations(data, &shards, k, n, &test_case, should_not_be_decodable);
}

#[test]
fn fec_end_to_end() {
    let bytes = bytes();

    let ks = [3, 5];
    let n = 5;

    for k in ks {
        end_to_end_template(&bytes, k, n);
    }
}

#[test]
fn end_to_end_with_recoding() {
    let bytes = bytes();

    fn get_scenarii(n: usize) -> Vec<(String, Vec<LC>, Vec<LCExclusion>)> {
        vec![
            (
                "simple".into(),
                vec![vec![2, 4], vec![1, 3], vec![n, (n + 1)]],
                vec![
                    vec![2, 4, n],
                    vec![1, 3, (n + 1)],
                    vec![n, (n + 1), (n + 2)],
                    vec![1, 3, n, (n + 2)],
                    vec![2, 4, (n + 1), (n + 2)],
                    vec![1, 2, 3, 4, (n + 2)],
                ],
            ),
            (
                "chain".into(),
                vec![vec![0], vec![(n)]],
                vec![vec![0, (n)], vec![0, (n + 1)], vec![(n), (n + 1)]],
            ),
        ]
    }

    for (k, n) in [(3, 5), (5, 5), (8, 10)] {
        for (name, steps, should_not_decode) in get_scenarii(n) {
            end_to_end_with_recoding_template(&bytes, k, n, steps, should_not_decode, &name);
        }
    }
}

fn long_full_end_to_end_with_recoding_template(data: &[u8], k: usize, n: usize, nb_steps: usize) {
    let mut rng = rng();
    let test_case = format!("TEST | data: {} bytes, k: {}, n: {}", data.len(), k, n,);

    let mut shards = encode(data, &Matrix::random(k, n, &mut rng))
        .unwrap_or_else(|_| panic!("could not encode {test_case}"));
    shards.shuffle(&mut rng);
    shards.truncate(k);

    for _ in 0..nb_steps {
        shards = (0..k)
            .map(|_| recode_random(&shards, &mut rng).unwrap().unwrap())
            .collect();
    }

    let actual = decode(shards).unwrap_or_else(|_| panic!("could not decode {test_case}"));
    assert_eq!(data, actual, "bad decoded data with {test_case}",);
}

#[test]
fn long_full_end_to_end_with_recoding() {
    let bytes = bytes();

    for (k, n) in [(3, 5), (5, 5), (8, 10)] {
        for nb_steps in [10, 20, 100] {
            long_full_end_to_end_with_recoding_template(&bytes, k, n, nb_steps);
        }
    }
}

fn create_fake_shard(linear_combination: &[Scalar], bytes: &[u8]) -> Shard {
    Shard {
        k: 2,
        linear_combination: linear_combination.to_vec(),
        hash: vec![],
        data: split_data_into_field_elements(bytes, 1),
        size: 0,
    }
}

#[test]
fn recoding() {
    let a = create_fake_shard(&[Scalar::one(), Scalar::zero()], &[1, 2, 3]);
    let b = create_fake_shard(&[Scalar::zero(), Scalar::one()], &[4, 5, 6]);

    let c = a.recode_with(to_curve(3), &b, to_curve(5));

    assert_eq!(c, create_fake_shard(&[to_curve(3), to_curve(5)], &[23, 31, 39]));

    assert_eq!(
        c.recode_with(to_curve(2), &a, to_curve(4)),
        create_fake_shard(&[to_curve(10), to_curve(10)], &[50, 70, 90])
    );
}

#[test]
fn combine_shards() {
    let a = create_fake_shard(&[to_curve(1), to_curve(0)], &[1, 4, 7]);
    let b = create_fake_shard(&[to_curve(0), to_curve(2)], &[2, 5, 8]);
    let c = create_fake_shard(&[to_curve(3), to_curve(5)], &[3, 6, 9]);

    assert!(recode_with_coeffs(&[], &[]).is_none());
    assert!(recode_with_coeffs(&[a.clone(), b.clone(), c.clone()], &[to_curve(1), to_curve(2)]).is_none());
    assert_eq!(
        recode_with_coeffs(&[a, b, c], &[to_curve(1), to_curve(2), to_curve(3)]),
        Some(create_fake_shard(&[to_curve(10), to_curve(19)], &[14, 32, 50]))
    );
}

#[test]
fn recode_with_a_zero_coefficient_scales_the_other_shard() {
    let a = create_fake_shard(&[to_curve(1), to_curve(0)], &[1, 2, 3]);
    let b = create_fake_shard(&[to_curve(0), to_curve(1)], &[4, 5, 6]);
    assert_eq!(
        a.recode_with(Scalar::zero(), &b, to_curve(2)),
        create_fake_shard(&[to_curve(0), to_curve(2)], &[8, 10, 12])
    );
    assert_eq!(
        a.recode_with(to_curve(3), &b, Scalar::zero()),
        create_fake_shard(&[to_curve(3), to_curve(0)], &[3, 6, 9])
    );
}

#[test]
fn recode_with_coeffs_of_one_shard_scales_it() {
    let a = create_fake_shard(&[to_curve(1), to_curve(2)], &[1, 2, 3]);
    assert_eq!(
        recode_with_coeffs(&[a], &[to_curve(2)]),
        Some(create_fake_shard(&[to_curve(2), to_curve(4)], &[2, 4, 6]))
    );
}

#[test]
fn recode_random_incompatible_shards() {
    let mut rng = rng();
    let a = create_fake_shard(&[to_curve(1), to_curve(0)], &[1, 2, 3]);
    let mut b = create_fake_shard(&[to_curve(0), to_curve(1)], &[4, 5, 6]);

    assert_eq!(recode_random(&[], &mut rng), Ok(None));
    assert!(recode_random(&[a.clone(), b.clone()], &mut rng).unwrap().is_some());

    b.k = 3;
    assert_eq!(
        recode_random(&[a.clone(), b.clone()], &mut rng),
        Err(KomodoError::IncompatibleShards {
            key: "k".to_string(),
            index: 0,
            left: "2".to_string(),
            right: "3".to_string(),
        })
    );

    b.k = 2;
    b.hash = vec![1, 2];
    assert_eq!(
        recode_random(&[a.clone(), a.clone(), b.clone()], &mut rng),
        Err(KomodoError::IncompatibleShards {
            key: "hash".to_string(),
            index: 1,
            left: "[]".to_string(),
            right: "[1, 2]".to_string(),
        })
    );

    b.hash = vec![];
    b.size = 10;
    assert_eq!(
        recode_random(&[a, b], &mut rng),
        Err(KomodoError::IncompatibleShards {
            key: "size".to_string(),
            index: 0,
            left: "0".to_string(),
            right: "10".to_string(),
        })
    );
}

#[test]
fn encode_shards_carry_parameters() {
    let data = bytes();
    let mut rng = rng();
    let m = Matrix::random(3, 5, &mut rng);
    let shards = encode(&data, &m).unwrap();
    assert_eq!(shards.len(), 5);
    for (j, s) in shards.iter().enumerate() {
        assert_eq!(s.k, 3);
        assert_eq!(s.size, data.len());
        assert_eq!(s.hash.len(), 32);
        assert_eq!(Some(s.linear_combination.clone()), m.get_col(j));
    }
    // the SHA-256 digest of the data is not the data
    assert_ne!(shards[0].hash, data[..32].to_vec());
}

#[test]
fn encode_empty_data() {
    let mut rng = rng();
    let m = Matrix::random(3, 5, &mut rng);
    assert_eq!(
        encode(&[], &m),
        Err(KomodoError::IncompatibleMatrixShapes { left: (0, 0), right: (3, 5) })
    );
}

#[test]
fn decode_errors() {
    let data = bytes();
    let mut rng = rng();
    let shards = encode(&data, &Matrix::random(3, 5, &mut rng)).unwrap();

    assert_eq!(decode(vec![]), Err(KomodoError::TooFewShards(0, 0)));
    assert_eq!(decode(shards[..2].to_vec()), Err(KomodoError::TooFewShards(2, 3)));

    let mut bad = shards[..3].to_vec();
    bad[1].linear_combination.push(Scalar::one());
    assert_eq!(
        decode(bad),
        Err(KomodoError::InvalidMatrixElements { expected: 3, found: 4, row: 1 })
    );

    let mut bad = shards[..3].to_vec();
    bad[2].data.pop();
    let found = bad[2].data.len();
    assert_eq!(
        decode(bad),
        Err(KomodoError::InvalidMatrixElements { expected: found + 1, found, row: 2 })
    );

    let mut bad = shards[..3].to_vec();
    for s in bad.iter_mut() {
        s.linear_combination.push(Scalar::one());
    }
    assert_eq!(decode(bad), Err(KomodoError::NonSquareMatrix(3, 4)));

    let bad = vec![shards[0].clone(), shards[0].clone(), shards[1].clone()];
    assert!(matches!(decode(bad), Err(KomodoError::NonInvertibleMatrix(_))));
}

#[test]
fn recoding_keeps_the_combination_of_any_sources() {
    let s = |v: u128| Scalar::from_u128(v);
    let sources = [vec![s(1), s(2), s(5)], vec![s(3), s(4), s(7)]];
    let shard = |a: u128, b: u128| Shard {
        k: 2,
        linear_combination: vec![s(a), s(b)],
        hash: vec![9, 9],
        data: (0..3).map(|i| sources[0][i].mul(&s(a)).add(&sources[1][i].mul(&s(b)))).collect(),
        size: 12,
    };
    let shards = vec![shard(1, 0), shard(0, 1), shard(2, 3)];
    let mut rng = rng();
    let t = recode_random(&shards, &mut rng).unwrap().unwrap();
    assert_eq!((t.k, t.hash.clone(), t.size), (2, vec![9, 9], 12));
    assert_eq!(t.linear_combination.len(), 2);
    for i in 0..3 {
        let expected = sources[0][i].mul(&t.linear_combination[0]).add(&sources[1][i].mul(&t.linear_combination[1]));
        assert_eq!(t.data[i], expected);
    }
}
