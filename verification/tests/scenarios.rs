use mu::error::NumError;
use mu::matrix::Mat;

#[test]
fn det_two_by_two() {
    let m = Mat::from_vec(2, 2, vec![1, 2, 3, 4]).unwrap();
    assert_eq!(m.det().unwrap(), -2);
}

#[test]
fn det_three_by_three_expansion() {
    let m = Mat::from_vec(3, 3, vec![1, 2, 3, 3, 1, 2, 5, 6, 1]).unwrap();
    let by_hand = 1 * (1 * 1 - 2 * 6) - 2 * (3 * 1 - 2 * 5) + 3 * (3 * 6 - 1 * 5);
    assert_eq!(m.det().unwrap(), by_hand);
    assert_eq!(m.det().unwrap(), 42);
}

#[test]
fn singular_matrix_has_no_inverse() {
    let m = Mat::from_vec(3, 3, vec![1, 2, 3, 4, 5, 6, 7, 8, 9]).unwrap();
    assert_eq!(m.det().unwrap(), 0);
    assert_eq!(m.inverse().unwrap(), None);
}

#[test]
fn empty_shapes_are_rejected() {
    assert_eq!(Mat::zeros(0, 3), Err(NumError::InvalidShape));
    assert_eq!(Mat::zeros(3, 0), Err(NumError::InvalidShape));
    assert_eq!(Mat::filled(0, 0, 7), Err(NumError::InvalidShape));
    assert_eq!(Mat::eye(0), Err(NumError::InvalidShape));
    assert_eq!(Mat::from_vec(0, 2, vec![]), Err(NumError::InvalidShape));
}

#[test]
fn dot_textbook_product() {
    let a = Mat::from_vec(2, 3, vec![1, 0, 2, -1, 3, 1]).unwrap();
    let b = Mat::from_vec(3, 2, vec![3, 1, 2, 1, 1, 0]).unwrap();
    let p = a.dot(&b).unwrap();
    assert_eq!(p.to_vec(), vec![5, 1, 4, 2]);
}

#[test]
fn transpose_of_product_is_reversed_product_of_transposes() {
    let a = Mat::from_vec(2, 3, vec![1, 2, 3, 4, 5, 6]).unwrap();
    let b = Mat::from_vec(3, 2, vec![7, 8, 9, 10, 11, 12]).unwrap();
    let lhs = a.multiply(&b).unwrap().transpose();
    let rhs = b.transpose().multiply(&a.transpose()).unwrap();
    assert_eq!(lhs.shape(), rhs.shape());
    assert_eq!(lhs.to_vec(), rhs.to_vec());
}

#[test]
fn identity_is_neutral_for_multiplication() {
    let a = Mat::from_vec(3, 3, vec![2, -1, 0, 4, 5, 6, 7, 8, 9]).unwrap();
    let e = Mat::eye(3).unwrap();
    assert_eq!(a.multiply(&e).unwrap().to_vec(), a.to_vec());
    assert_eq!(e.multiply(&a).unwrap().to_vec(), a.to_vec());
}

#[test]
fn product_with_inverse_gives_scaled_identity() {
    let a = Mat::from_vec(2, 2, vec![4, 7, 2, 6]).unwrap();
    let (adj, den) = a.inverse().unwrap().unwrap();
    assert_eq!(den, 10);
    let product = a.multiply(&adj).unwrap();
    assert_eq!(product.to_vec(), vec![10, 0, 0, 10]);
    for i in 0..2 {
        for j in 0..2 {
            let entry = product.get(i, j).unwrap() as f64 / den as f64;
            let expected = if i == j { 1.0f64 } else { 0.0 };
            assert!((entry - expected).abs() < 1e-9);
        }
    }
}

#[test]
fn pow_composes_additively() {
    let a = Mat::from_vec(2, 2, vec![1, 2, 3, 4]).unwrap();
    let e = Mat::eye(2).unwrap();
    assert_eq!(a.pow(0).unwrap().to_vec(), e.to_vec());
    assert_eq!(a.pow(1).unwrap().to_vec(), a.to_vec());
    let lhs = a.pow(5).unwrap();
    let rhs = a.pow(2).unwrap().multiply(&a.pow(3).unwrap()).unwrap();
    assert_eq!(lhs.to_vec(), rhs.to_vec());
}

#[test]
fn det_of_identity_is_one() {
    for n in 1..=5usize {
        assert_eq!(Mat::eye(n).unwrap().det().unwrap(), 1);
    }
}

#[test]
fn adjugate_commutes_with_transpose() {
    let a = Mat::from_vec(2, 2, vec![4, 7, 2, 6]).unwrap();
    let lhs = a.transpose().adjugate().unwrap();
    let rhs = a.adjugate().unwrap().transpose();
    assert_eq!(lhs.to_vec(), rhs.to_vec());

    let b = Mat::from_vec(3, 3, vec![1, 2, 3, 3, 1, 2, 5, 6, 1]).unwrap();
    let lhs3 = b.transpose().adjugate().unwrap();
    let rhs3 = b.adjugate().unwrap().transpose();
    assert_eq!(lhs3.to_vec(), rhs3.to_vec());
}

#[test]
fn shape_mismatches_are_rejected() {
    let a = Mat::from_vec(2, 2, vec![1, 2, 3, 4]).unwrap();
    let b = Mat::from_vec(2, 3, vec![1, 2, 3, 4, 5, 6]).unwrap();
    assert_eq!(a.add(&b), Err(NumError::ShapeMismatch));
    assert_eq!(a.sub(&b), Err(NumError::ShapeMismatch));
    assert_eq!(b.multiply(&a), Err(NumError::ShapeMismatch));
    assert_eq!(
        Mat::from_vec(2, 2, vec![1, 2, 3]),
        Err(NumError::ShapeMismatch)
    );
}

#[test]
fn square_only_operations_reject_rectangles() {
    let b = Mat::from_vec(2, 3, vec![1, 2, 3, 4, 5, 6]).unwrap();
    assert_eq!(b.trace(), Err(NumError::NotSquare));
    assert_eq!(b.det(), Err(NumError::NotSquare));
    assert_eq!(b.cofactor(), Err(NumError::NotSquare));
    assert_eq!(b.adjugate(), Err(NumError::NotSquare));
    assert_eq!(b.inverse(), Err(NumError::NotSquare));
    assert_eq!(b.pow(2), Err(NumError::NotSquare));
}

#[test]
fn scalar_division_by_zero_is_rejected() {
    let a = Mat::from_vec(2, 2, vec![1, 2, 3, 4]).unwrap();
    assert_eq!(a.div_scalar(0), Err(NumError::DivisionByZero));
}

#[test]
fn overflow_is_reported_not_wrapped() {
    let big = Mat::from_vec(1, 1, vec![i64::MAX]).unwrap();
    assert_eq!(big.add(&big), Err(NumError::Overflow));
    assert_eq!(big.scale(2), Err(NumError::Overflow));
    let low = Mat::from_vec(1, 1, vec![i64::MIN]).unwrap();
    assert_eq!(low.neg(), Err(NumError::Overflow));
    assert_eq!(low.div_scalar(-1), Err(NumError::Overflow));
    let wide = Mat::from_vec(2, 2, vec![i64::MAX, 1, 1, i64::MAX]).unwrap();
    assert_eq!(wide.det(), Err(NumError::Overflow));
    assert_eq!(wide.trace(), Err(NumError::Overflow));
}

#[test]
fn duplicate_is_equal_and_fresh() {
    let a = Mat::from_vec(2, 2, vec![1, 2, 3, 4]).unwrap();
    let mut b = a.duplicate();
    assert_eq!(b.to_vec(), a.to_vec());
    b.set(0, 0, 99).unwrap();
    assert_eq!(a.get(0, 0).unwrap(), 1);
    assert_eq!(b.get(0, 0).unwrap(), 99);
}

#[test]
fn trace_and_minor_agree_with_hand_computation() {
    let m = Mat::from_vec(3, 3, vec![2, 0, 1, 3, 5, 8, -1, 4, 6]).unwrap();
    assert_eq!(m.trace().unwrap(), 13);
    let minor = m.sub_matrix(0, 2).unwrap();
    assert_eq!(minor.to_vec(), vec![3, 5, -1, 4]);
    assert_eq!(m.det().unwrap(), 2 * (5 * 6 - 8 * 4) - 0 + 1 * (3 * 4 - 5 * (-1)));
}
