use mu::complex::Complex;
use mu::error::NumError;

#[test]
fn test_conj() {
    let c = Complex { re: 1, im: 1 };
    let conj = c.conj().unwrap();
    assert_eq!(conj.re, 1);
    assert_eq!(conj.im, -1);
}

#[test]
fn complex_test_add() {
    let c1 = Complex { re: 1, im: 1 };
    let c2 = Complex { re: 1, im: 1 };
    let sum = c1.add(&c2).unwrap();
    assert_eq!(sum.re, 2);
    assert_eq!(sum.im, 2);
}

#[test]
fn complex_test_sub() {
    let c1 = Complex { re: 1, im: 1 };
    let c2 = Complex { re: 1, im: 1 };
    let diff = c1.sub(&c2).unwrap();
    assert_eq!(diff.re, 0);
    assert_eq!(diff.im, 0);
}

#[test]
fn complex_test_neg() {
    let c = Complex { re: 1, im: 1 };
    let neg = c.neg().unwrap();
    assert_eq!(neg.re, -1);
    assert_eq!(neg.im, -1);
}

#[test]
fn complex_test_mul() {
    let c1 = Complex { re: 1, im: 1 };
    let c2 = Complex { re: 1, im: 1 };
    let prod = c1.mul(&c2).unwrap();
    assert_eq!(prod.re, 0);
    assert_eq!(prod.im, 2);
}

#[test]
fn test_mul_f64() {
    let c = Complex { re: 1, im: 1 };
    let prod = c.scale(2).unwrap();
    assert_eq!(prod.re, 2);
    assert_eq!(prod.im, 2);
}

#[test]
fn complex_test_div() {
    let c1 = Complex { re: 1, im: 1 };
    let c2 = Complex { re: 1, im: 1 };
    let quot = c1.div(&c2).unwrap();
    assert_eq!(quot.re, 1);
    assert_eq!(quot.im, 0);
}

#[test]
fn complex_div_truncates() {
    let c1 = Complex::new(5, 3);
    let c2 = Complex::new(2, 0);
    let quot = c1.div(&c2).unwrap();
    assert_eq!(quot.re, 2);
    assert_eq!(quot.im, 1);
}

#[test]
fn complex_div_by_zero() {
    let c1 = Complex::new(1, 2);
    let zero = Complex::new(0, 0);
    assert_eq!(c1.div(&zero), Err(NumError::DivisionByZero));
    assert_eq!(c1.div_scalar(0), Err(NumError::DivisionByZero));
}

#[test]
fn complex_overflow_reported() {
    let big = Complex::new(i64::MAX, 0);
    let one = Complex::new(1, 0);
    assert_eq!(big.add(&one), Err(NumError::Overflow));
    assert_eq!(big.scale(2), Err(NumError::Overflow));
    let low = Complex::new(i64::MIN, i64::MIN);
    assert_eq!(low.neg(), Err(NumError::Overflow));
    assert_eq!(low.conj(), Err(NumError::Overflow));
    assert_eq!(low.div_scalar(-1), Err(NumError::Overflow));
}
