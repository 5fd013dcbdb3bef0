use ark_std::rand::rngs::StdRng;
use ark_std::rand::SeedableRng;
use komodo::algebra::linalg::Matrix;
use komodo::error::KomodoError;
use komodo::field::Scalar;

fn vec_to_elements(elements: Vec<u128>) -> Vec<Scalar> {
    elements.iter().map(|&x| Scalar::from_u128(x)).collect()
}

fn mat_to_elements(mat: Vec<Vec<u128>>) -> Vec<Vec<Scalar>> {
    mat.iter().cloned().map(vec_to_elements).collect()
}

fn rng() -> StdRng {
    StdRng::seed_from_u64(0)
}

#[test]
fn linalg_from_vec_vec() {
    let actual = Matrix::from_vec_vec(mat_to_elements(vec![
        vec![2, 0, 0],
        vec![0, 3, 0],
        vec![0, 0, 4],
        vec![2, 3, 4],
    ]))
    .unwrap();
    let expected = Matrix {
        elements: vec_to_elements(vec![2, 0, 0, 0, 3, 0, 0, 0, 4, 2, 3, 4]),
        height: 4,
        width: 3,
    };
    assert_eq!(actual, expected);

    let matrix = Matrix::from_vec_vec(mat_to_elements(vec![vec![0], vec![0, 0]]));
    assert!(matrix.is_err());
    assert_eq!(
        matrix.err().unwrap(),
        KomodoError::InvalidMatrixElements {
            expected: 1,
            found: 2,
            row: 1,
        }
    );
}

#[test]
fn linalg_diagonal() {
    let actual = Matrix::from_diagonal(vec_to_elements(vec![2, 3, 4]));
    let expected = Matrix::from_vec_vec(mat_to_elements(vec![
        vec![2, 0, 0],
        vec![0, 3, 0],
        vec![0, 0, 4],
    ]))
    .unwrap();
    assert_eq!(actual, expected);
}

#[test]
fn linalg_identity() {
    let actual = Matrix::identity(3);
    let expected = Matrix::from_vec_vec(mat_to_elements(vec![
        vec![1, 0, 0],
        vec![0, 1, 0],
        vec![0, 0, 1],
    ]))
    .unwrap();
    assert_eq!(actual, expected);
}

#[test]
fn linalg_multiplication() {
    let a = Matrix::from_vec_vec(mat_to_elements(vec![
        vec![9, 4, 3],
        vec![8, 5, 2],
        vec![7, 6, 1],
    ]))
    .unwrap();
    let b = Matrix::from_vec_vec(mat_to_elements(vec![
        vec![1, 2, 3],
        vec![4, 5, 6],
        vec![7, 8, 9],
    ]))
    .unwrap();

    assert_eq!(
        a.mul(&Matrix::from_vec_vec(mat_to_elements(vec![vec![1, 2]])).unwrap()),
        Err(KomodoError::IncompatibleMatrixShapes {
            left: (3, 3),
            right: (1, 2)
        })
    );

    let product = a.mul(&b).unwrap();
    let expected = Matrix::from_vec_vec(mat_to_elements(vec![
        vec![46, 62, 78],
        vec![42, 57, 72],
        vec![38, 52, 66],
    ]))
    .unwrap();
    assert_eq!(product, expected);
}

#[test]
fn random() {
    let mut rng = rng();

    for n in 0..10 {
        for m in 0..10 {
            let mat = Matrix::random(n, m, &mut rng);
            assert_eq!(mat.elements.len(), n * m);
            assert_eq!(mat.width, m);
            assert_eq!(mat.height, n);
        }
    }
}

#[test]
fn linalg_inverse() {
    let mut rng = rng();

    let matrix = Matrix::identity(3);
    let inverse = matrix.invert().unwrap();
    assert_eq!(Matrix::identity(3), inverse);

    let matrix = Matrix::from_diagonal(vec_to_elements(vec![2, 3, 4]));
    let inverse = matrix.invert().unwrap();
    assert_eq!(matrix.mul(&inverse).unwrap(), Matrix::identity(3));
    assert_eq!(inverse.mul(&matrix).unwrap(), Matrix::identity(3));

    for n in 1..20 {
        let matrix = Matrix::random(n, n, &mut rng);
        let inverse = matrix.invert().unwrap();
        assert_eq!(matrix.mul(&inverse).unwrap(), Matrix::identity(n));
        assert_eq!(inverse.mul(&matrix).unwrap(), Matrix::identity(n));
    }

    let inverse = Matrix::from_vec_vec(mat_to_elements(vec![vec![1, 0, 0], vec![0, 1, 0]]))
        .unwrap()
        .invert();
    assert!(inverse.is_err());
    assert_eq!(inverse.err().unwrap(), KomodoError::NonSquareMatrix(2, 3));

    let inverse = Matrix::from_diagonal(vec_to_elements(vec![0, 3, 4])).invert();
    assert!(inverse.is_err());
    assert_eq!(inverse.err().unwrap(), KomodoError::NonInvertibleMatrix(0));

    let inverse = Matrix::from_vec_vec(mat_to_elements(vec![
        vec![1, 1, 0],
        vec![0, 0, 0],
        vec![0, 0, 1],
    ]))
    .unwrap()
    .invert();
    assert!(inverse.is_err());
    assert_eq!(inverse.err().unwrap(), KomodoError::NonInvertibleMatrix(1));
}

#[test]
fn linalg_vandermonde() {
    assert_eq!(
        Matrix::vandermonde(&vec_to_elements(vec![0, 4, 2, 3, 4]), 4),
        Err(KomodoError::InvalidVandermonde {
            first_index: 1,
            second_index: 4,
            value_repr: "4".to_string()
        }),
    );
    assert!(Matrix::vandermonde(&vec_to_elements(vec![0, 1, 2, 3, 4]), 4).is_ok());

    let actual = Matrix::vandermonde_unchecked(&vec_to_elements(vec![0, 1, 2, 3, 4]), 4);
    let expected = Matrix::from_vec_vec(mat_to_elements(vec![
        vec![1, 1, 1,  1,  1],
        vec![0, 1, 2,  3,  4],
        vec![0, 1, 4,  9, 16],
        vec![0, 1, 8, 27, 64],
    ]))
    .unwrap();
    assert_eq!(actual, expected);
}

#[test]
fn linalg_transpose() {
    let matrix = Matrix::from_vec_vec(mat_to_elements(vec![
        vec![1, 2, 3, 10],
        vec![4, 5, 6, 11],
        vec![7, 8, 9, 12],
    ]))
    .unwrap();
    let transpose = Matrix::from_vec_vec(mat_to_elements(vec![
        vec![1, 4, 7],
        vec![2, 5, 8],
        vec![3, 6, 9],
        vec![10, 11, 12],
    ]))
    .unwrap();

    assert_eq!(matrix.transpose(), transpose);
}

#[test]
fn linalg_truncate() {
    let matrix = Matrix::from_vec_vec(mat_to_elements(vec![
        vec![1, 2, 3, 10],
        vec![4, 5, 6, 11],
        vec![7, 8, 9, 12],
    ]))
    .unwrap();

    assert_eq!(matrix.truncate(None, None), matrix);
    assert_eq!(matrix.truncate(Some(0), None), matrix);
    assert_eq!(matrix.truncate(None, Some(0)), matrix);
    assert_eq!(matrix.truncate(Some(0), Some(0)), matrix);

    let truncated = Matrix::from_vec_vec(mat_to_elements(vec![vec![1, 2], vec![4, 5]])).unwrap();
    assert_eq!(matrix.truncate(Some(1), Some(2)), truncated);
}

#[test]
fn linalg_get_cols() {
    let matrix = Matrix::from_vec_vec(mat_to_elements(vec![
        vec![1, 2, 3, 10],
        vec![4, 5, 6, 11],
        vec![7, 8, 9, 12],
    ]))
    .unwrap();

    assert!(matrix.get_col(10).is_none());

    assert_eq!(matrix.get_col(0), Some(vec_to_elements(vec![1, 4, 7])));
    assert_eq!(matrix.get_col(3), Some(vec_to_elements(vec![10, 11, 12])));
}

#[test]
fn rank() {
    let mut rng = rng();

    for n in 1..=20 {
        assert_eq!(Matrix::identity(n).rank(), n);
    }

    for _ in 0..20 {
        let m = Matrix::random(7, 13, &mut rng);
        assert_eq!(m.rank(), m.transpose().rank());
    }

    let m = Matrix::from_vec_vec(mat_to_elements(vec![
        vec![1, 0, 0],
        vec![0, 2, 0],
        vec![0, 0, 3],
    ]))
    .unwrap();
    assert_eq!(m.rank(), 3);

    let m = Matrix::from_vec_vec(mat_to_elements(vec![
        vec![1, 0, 0],
        vec![0, 2, 0],
        vec![0, 0, 3],
        vec![0, 0, 3],
    ]))
    .unwrap();
    assert_eq!(m.rank(), 3);

    let m = Matrix::from_vec_vec(mat_to_elements(vec![
        vec![1, 0, 0],
        vec![0, 2, 0],
        vec![0, 0, 0],
    ]))
    .unwrap();
    assert_eq!(m.rank(), 2);

    let m = Matrix::from_vec_vec(mat_to_elements(vec![
        vec![0, 0, 0],
        vec![0, 0, 0],
        vec![0, 0, 0],
    ]))
    .unwrap();
    assert_eq!(m.rank(), 0);

    let m = Matrix::from_vec_vec(mat_to_elements(vec![
        vec![0, 0, 1, 0],
        vec![1, 0, 0, 1],
        vec![0, 1, 0, 1],
        vec![0, 1, 1, 0],
        vec![1, 0, 0, 0],
    ]))
    .unwrap();
    let rank = m.rank();
    assert!(
        rank <= m.height.min(m.width),
        "rank should be less than {}, got {}",
        m.height.min(m.width),
        rank
    );
}

#[test]
fn swap_and_row_operations() {
    let mut m = Matrix::from_vec_vec(mat_to_elements(vec![vec![1, 2], vec![3, 4]])).unwrap();
    m.swap_rows(0, 1);
    assert_eq!(m, Matrix::from_vec_vec(mat_to_elements(vec![vec![3, 4], vec![1, 2]])).unwrap());
    m.multiply_row_by_and_add_to_row(1, Scalar::from_u128(2), 0);
    assert_eq!(m, Matrix::from_vec_vec(mat_to_elements(vec![vec![5, 8], vec![1, 2]])).unwrap());
    m.divide_row_by(1, Scalar::from_u128(1));
    assert_eq!(m.get(1, 1), Scalar::from_u128(2));
    m.set(0, 0, Scalar::from_u128(7));
    assert_eq!(m.get(0, 0), Scalar::from_u128(7));
}

#[test]
fn non_invertible_dependent_column() {
    // the third column is the sum of the first two
    let m = Matrix::from_vec_vec(mat_to_elements(vec![vec![1, 0, 1], vec![0, 1, 1], vec![2, 3, 5]]))
        .unwrap();
    assert_eq!(m.invert(), Err(KomodoError::NonInvertibleMatrix(2)));
}

#[test]
fn non_invertible_reports_the_first_zero_pivot() {
    // elimination without row exchanges stops on row 0, though the first
    // dependent column is column 2
    let m = Matrix::from_vec_vec(mat_to_elements(vec![vec![0, 1, 1], vec![0, 0, 0], vec![1, 0, 0]])).unwrap();
    assert_eq!(m.invert(), Err(KomodoError::NonInvertibleMatrix(0)));

    let m = Matrix::from_vec_vec(mat_to_elements(vec![vec![1, 2, 3], vec![2, 4, 5], vec![3, 6, 9]])).unwrap();
    assert_eq!(m.invert(), Err(KomodoError::NonInvertibleMatrix(1)));
}

#[test]
fn invert_exchanges_rows_for_a_zero_pivot() {
    let m = Matrix::from_vec_vec(mat_to_elements(vec![vec![0, 1], vec![1, 0]])).unwrap();
    let inverse = m.invert().unwrap();
    assert_eq!(m.mul(&inverse).unwrap(), Matrix::identity(2));
}
