use komodo::conversions::u32_to_u8_vec;
use komodo::fri::transpose;
use ark_std::rand::rngs::StdRng;
use ark_std::rand::SeedableRng;
use komodo::setup::{ceil_divide, random};

#[test]
fn u32_to_u8_convertion() {
    assert_eq!(u32_to_u8_vec(0u32), vec![0u8, 0u8, 0u8, 0u8]);
    assert_eq!(u32_to_u8_vec(1u32), vec![1u8, 0u8, 0u8, 0u8]);
    assert_eq!(u32_to_u8_vec(256u32), vec![0u8, 1u8, 0u8, 0u8]);
    assert_eq!(u32_to_u8_vec(65536u32), vec![0u8, 0u8, 1u8, 0u8]);
    assert_eq!(u32_to_u8_vec(16777216u32), vec![0u8, 0u8, 0u8, 1u8]);
}

#[test]
fn u32_to_u8_all_bytes() {
    assert_eq!(u32_to_u8_vec(0x0403_0201), vec![1, 2, 3, 4]);
    assert_eq!(u32_to_u8_vec(u32::MAX), vec![255, 255, 255, 255]);
}

#[test]
fn test_ceil_divide() {
    assert_eq!(ceil_divide(10, 2), 5);
    assert_eq!(ceil_divide(10, 3), 4);
    assert_eq!(ceil_divide(10, 6), 2);
}

#[test]
fn ceil_divide_edges() {
    assert_eq!(ceil_divide(0, 7), 0);
    assert_eq!(ceil_divide(1, 7), 1);
    assert_eq!(ceil_divide(7, 7), 1);
}

#[test]
fn transpose_columns() {
    let rows = vec![vec![1, 2, 3], vec![4, 5, 6]];
    assert_eq!(transpose(&rows), vec![vec![1, 4], vec![2, 5], vec![3, 6]]);
    let ragged = vec![vec![1, 2], vec![3, 4, 5]];
    assert_eq!(transpose(&ragged), vec![vec![1, 3], vec![2, 4]]);
}

#[test]
fn random_setup_size() {
    let nb_bytes = 10 * 1_024;
    let powers = random(nb_bytes, &mut StdRng::seed_from_u64(0));
    assert!(powers.is_ok());

    assert_eq!(powers.unwrap().powers_of_g.len(), ceil_divide(nb_bytes, 31));
}

#[test]
fn random_setup_too_small() {
    assert!(random(30, &mut StdRng::seed_from_u64(0)).is_err());
    let powers = random(62, &mut StdRng::seed_from_u64(0)).unwrap();
    assert_eq!(powers.powers_of_g.len(), 3);
    assert_eq!(powers.powers_of_gamma_g.len(), 3);
}
