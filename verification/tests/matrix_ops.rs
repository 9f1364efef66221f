use mu::error::NumError;
use mu::matrix::Mat;

#[test]
fn test_new() {
    let m = Mat::new(2, 3).unwrap();
    let (rows, cols) = m.shape();
    assert_eq!(rows, 2);
    assert_eq!(cols, 3);
    assert_eq!(m.to_vec(), vec![0i64; 6]);
}

#[test]
fn test_from_vec() {
    let data = vec![1i64, 2, 3, 4];
    let m = Mat::from_vec(2, 2, data.clone()).unwrap();
    let (rows, cols) = m.shape();
    assert_eq!(rows, 2);
    assert_eq!(cols, 2);
    assert_eq!(m.to_vec(), data);
}

#[test]
fn test_zeros() {
    let m = Mat::zeros(3, 2).unwrap();
    let (rows, cols) = m.shape();
    assert_eq!(rows, 3);
    assert_eq!(cols, 2);
    assert!(m.to_vec().iter().all(|&x| x == 0));
}

#[test]
fn test_ones() {
    let m = Mat::ones(2, 3).unwrap();
    let (rows, cols) = m.shape();
    assert_eq!(rows, 2);
    assert_eq!(cols, 3);
    assert!(m.to_vec().iter().all(|&x| x == 1));
}

#[test]
fn test_eye() {
    let m = Mat::eye(3).unwrap();
    let (rows, cols) = m.shape();
    assert_eq!(rows, 3);
    assert_eq!(cols, 3);
    for i in 0..3 {
        for j in 0..3 {
            if i == j {
                assert_eq!(m.get(i, j).unwrap(), 1);
            } else {
                assert_eq!(m.get(i, j).unwrap(), 0);
            }
        }
    }
}

#[test]
fn test_transpose() {
    let m = Mat::from_vec(2, 3, vec![1, 2, 3, 4, 5, 6]).unwrap();
    let mt = m.transpose();
    let (rows, cols) = mt.shape();
    assert_eq!(rows, 3);
    assert_eq!(cols, 2);
    assert_eq!(mt.to_vec(), vec![1, 4, 2, 5, 3, 6]);
}

#[test]
fn test_trace() {
    let m = Mat::from_vec(3, 3, vec![1, 2, 3, 4, 5, 6, 7, 8, 9]).unwrap();
    assert_eq!(m.trace().unwrap(), 15);
}

#[test]
fn test_dot() {
    let m1 = Mat::from_vec(2, 3, vec![1, 2, 3, 4, 5, 6]).unwrap();
    let m2 = Mat::from_vec(3, 2, vec![7, 8, 9, 10, 11, 12]).unwrap();
    let result = m1.dot(&m2).unwrap();
    let (rows, cols) = result.shape();
    assert_eq!(rows, 2);
    assert_eq!(cols, 2);
    assert_eq!(result.to_vec(), vec![58, 64, 139, 154]);
}

#[test]
fn test_det() {
    let m = Mat::from_vec(3, 3, vec![1, 2, 3, 4, 5, 6, 7, 8, 9]).unwrap();
    assert_eq!(m.det().unwrap(), 0);

    let m2 = Mat::from_vec(2, 2, vec![1, 2, 3, 4]).unwrap();
    assert_eq!(m2.det().unwrap(), -2);
}

#[test]
fn test_inverse() {
    let m = Mat::from_vec(2, 2, vec![4, 7, 2, 6]).unwrap();
    let (adj, den) = m.inverse().unwrap().unwrap();
    let expected = [[0.6f64, -0.7], [-0.2, 0.4]];
    for i in 0..2 {
        for j in 0..2 {
            let entry = adj.get(i, j).unwrap() as f64 / den as f64;
            assert!((entry - expected[i][j]).abs() < 1e-9);
        }
    }
}

#[test]
fn matrix_test_add() {
    let m1 = Mat::from_vec(2, 2, vec![1, 2, 3, 4]).unwrap();
    let m2 = Mat::from_vec(2, 2, vec![5, 6, 7, 8]).unwrap();
    let result = m1.add(&m2).unwrap();
    assert_eq!(result.to_vec(), vec![6, 8, 10, 12]);
}

#[test]
fn matrix_test_sub() {
    let m1 = Mat::from_vec(2, 2, vec![5, 6, 7, 8]).unwrap();
    let m2 = Mat::from_vec(2, 2, vec![1, 2, 3, 4]).unwrap();
    let result = m1.sub(&m2).unwrap();
    assert_eq!(result.to_vec(), vec![4, 4, 4, 4]);
}

#[test]
fn matrix_test_mul() {
    let m1 = Mat::from_vec(2, 2, vec![1, 2, 3, 4]).unwrap();
    let m2 = Mat::from_vec(2, 2, vec![2, 0, 1, 2]).unwrap();
    let result = m1.multiply(&m2).unwrap();
    assert_eq!(result.to_vec(), vec![4, 4, 10, 8]);
}

#[test]
fn test_scalar_mul() {
    let m = Mat::from_vec(2, 2, vec![1, 2, 3, 4]).unwrap();
    let result = m.scale(2).unwrap();
    assert_eq!(result.to_vec(), vec![2, 4, 6, 8]);
}

#[test]
fn test_div() {
    let m = Mat::from_vec(2, 2, vec![2, 4, 6, 8]).unwrap();
    let result = m.div_scalar(2).unwrap();
    assert_eq!(result.to_vec(), vec![1, 2, 3, 4]);
}

#[test]
fn matrix_test_neg() {
    let m = Mat::from_vec(2, 2, vec![1, -2, 3, -4]).unwrap();
    let result = m.neg().unwrap();
    assert_eq!(result.to_vec(), vec![-1, 2, -3, 4]);
}

#[test]
fn test_get_set() {
    let mut m = Mat::zeros(2, 2).unwrap();
    m.set(0, 1, 9).unwrap();
    assert_eq!(m.get(0, 1).unwrap(), 9);
    assert_eq!(m.get(0, 0).unwrap(), 0);
    assert_eq!(m.get(1, 0).unwrap(), 0);
    assert_eq!(m.get(1, 1).unwrap(), 0);
    assert_eq!(m.get(2, 0), Err(NumError::IndexOutOfBounds));
    assert_eq!(m.set(0, 2, 5), Err(NumError::IndexOutOfBounds));
}

#[test]
fn test_sub_matrix() {
    let m = Mat::from_vec(3, 3, vec![1, 2, 3, 4, 5, 6, 7, 8, 9]).unwrap();
    let s = m.sub_matrix(1, 1).unwrap();
    let (rows, cols) = s.shape();
    assert_eq!(rows, 2);
    assert_eq!(cols, 2);
    assert_eq!(s.to_vec(), vec![1, 3, 7, 9]);
    assert_eq!(m.sub_matrix(3, 0), Err(NumError::IndexOutOfBounds));
    let tiny = Mat::from_vec(1, 1, vec![5]).unwrap();
    assert_eq!(tiny.sub_matrix(0, 0), Err(NumError::TooSmall));
}

#[test]
fn pow_by_repeated_squaring() {
    let m = Mat::from_vec(2, 2, vec![1, 1, 0, 1]).unwrap();
    let p0 = m.pow(0).unwrap();
    assert_eq!(p0.to_vec(), vec![1, 0, 0, 1]);
    let p1 = m.pow(1).unwrap();
    assert_eq!(p1.to_vec(), m.to_vec());
    let p10 = m.pow(10).unwrap();
    assert_eq!(p10.to_vec(), vec![1, 10, 0, 1]);
    let f = Mat::from_vec(2, 2, vec![1, 1, 1, 0]).unwrap();
    let f8 = f.pow(8).unwrap();
    assert_eq!(f8.to_vec(), vec![34, 21, 21, 13]);
}

#[test]
fn test_cofactor_adjugate() {
    let m = Mat::from_vec(2, 2, vec![4, 7, 2, 6]).unwrap();
    let cof = m.cofactor().unwrap();
    assert_eq!(cof.to_vec(), vec![6, -2, -7, 4]);
    let adj = m.adjugate().unwrap();
    assert_eq!(adj.to_vec(), vec![6, -7, -2, 4]);
    let tiny = Mat::from_vec(1, 1, vec![3]).unwrap();
    assert_eq!(tiny.cofactor(), Err(NumError::TooSmall));
}
