use vstd::prelude::*;

use crate::error::NumError;
use crate::model::{div_trunc, in_i64, lemma_div_trunc_in_range};

verus! {

/// A complex number with integer rectangular coordinates, the scalar
/// companion of the matrix type. Its closed-form operations — conjugate,
/// addition, subtraction, negation, multiplication and division — are
/// exact; division truncates each coordinate toward zero.
#[derive(Clone, Copy, Debug, PartialEq, Eq, Structural)]
pub struct Complex {
    pub re: i64,
    pub im: i64,
}

/// Whether the rectangular product of `(a, b)` and `(c, d)` can be
/// computed in `i64`: both coordinate products of each part and their
/// combination stay in range.
pub open spec fn cmul_fits(a: int, b: int, c: int, d: int) -> bool {
    &&& in_i64(a * c)
    &&& in_i64(b * d)
    &&& in_i64(a * c - b * d)
    &&& in_i64(a * d)
    &&& in_i64(b * c)
    &&& in_i64(a * d + b * c)
}

/// Whether the squared magnitude `c*c + d*d` can be computed in `i64`.
pub open spec fn cnorm_fits(c: int, d: int) -> bool {
    &&& in_i64(c * c)
    &&& in_i64(d * d)
    &&& in_i64(c * c + d * d)
}

/// Whether the numerators of the rectangular quotient of `(a, b)` by
/// `(c, d)` can be computed in `i64`.
pub open spec fn cdiv_fits(a: int, b: int, c: int, d: int) -> bool {
    &&& in_i64(a * c)
    &&& in_i64(b * d)
    &&& in_i64(a * c + b * d)
    &&& in_i64(b * c)
    &&& in_i64(a * d)
    &&& in_i64(b * c - a * d)
}

impl Complex {
    /// Builds the complex number `re + im*i`.
    pub fn new(re: i64, im: i64) -> (r: Complex)
        ensures
            r.re == re,
            r.im == im,
    {
        Complex { re, im }
    }

    /// The conjugate: the imaginary part negated. Fails with `Overflow`
    /// exactly when the negated imaginary part leaves the `i64` range.
    pub fn conj(&self) -> (r: Result<Complex, NumError>)
        ensures
            match r {
                Ok(c) => in_i64(-self.im) && c.re == self.re && c.im as int == -self.im,
                Err(e) => e == NumError::Overflow && !in_i64(-self.im),
            },
    {
        match (0i64).checked_sub(self.im) {
            Some(n) => Ok(Complex { re: self.re, im: n }),
            None => Err(NumError::Overflow),
        }
    }

    /// The sum: both coordinate pairs added. Fails with `Overflow`
    /// exactly when a coordinate sum leaves the `i64` range.
    pub fn add(&self, other: &Complex) -> (r: Result<Complex, NumError>)
        ensures
            match r {
                Ok(c) => {
                    &&& in_i64(self.re + other.re) && in_i64(self.im + other.im)
                    &&& c.re as int == self.re + other.re
                    &&& c.im as int == self.im + other.im
                },
                Err(e) => e == NumError::Overflow && !(in_i64(self.re + other.re) && in_i64(
                    self.im + other.im,
                )),
            },
    {
        let re: i64 = match self.re.checked_add(other.re) {
            Some(v) => v,
            None => {
                return Err(NumError::Overflow);
            },
        };
        let im: i64 = match self.im.checked_add(other.im) {
            Some(v) => v,
            None => {
                return Err(NumError::Overflow);
            },
        };
        Ok(Complex { re, im })
    }

    /// The difference: both coordinate pairs subtracted. Fails with
    /// `Overflow` exactly when a coordinate difference leaves the `i64`
    /// range.
    pub fn sub(&self, other: &Complex) -> (r: Result<Complex, NumError>)
        ensures
            match r {
                Ok(c) => {
                    &&& in_i64(self.re - other.re) && in_i64(self.im - other.im)
                    &&& c.re as int == self.re - other.re
                    &&& c.im as int == self.im - other.im
                },
                Err(e) => e == NumError::Overflow && !(in_i64(self.re - other.re) && in_i64(
                    self.im - other.im,
                )),
            },
    {
        let re: i64 = match self.re.checked_sub(other.re) {
            Some(v) => v,
            None => {
                return Err(NumError::Overflow);
            },
        };
        let im: i64 = match self.im.checked_sub(other.im) {
            Some(v) => v,
            None => {
                return Err(NumError::Overflow);
            },
        };
        Ok(Complex { re, im })
    }

    /// The negation of both coordinates. Fails with `Overflow` exactly
    /// when a negated coordinate leaves the `i64` range.
    pub fn neg(&self) -> (r: Result<Complex, NumError>)
        ensures
            match r {
                Ok(c) => {
                    &&& in_i64(-self.re) && in_i64(-self.im)
                    &&& c.re as int == -self.re
                    &&& c.im as int == -self.im
                },
                Err(e) => e == NumError::Overflow && !(in_i64(-self.re) && in_i64(-self.im)),
            },
    {
        let re: i64 = match (0i64).checked_sub(self.re) {
            Some(v) => v,
            None => {
                return Err(NumError::Overflow);
            },
        };
        let im: i64 = match (0i64).checked_sub(self.im) {
            Some(v) => v,
            None => {
                return Err(NumError::Overflow);
            },
        };
        Ok(Complex { re, im })
    }

    /// The product, in rectangular form: the real part is
    /// `re*re' - im*im'` and the imaginary part `re*im' + im*re'`. Fails
    /// with `Overflow` exactly when one of those combinations leaves the
    /// `i64` range.
    pub fn mul(&self, other: &Complex) -> (r: Result<Complex, NumError>)
        ensures
            match r {
                Ok(c) => {
                    &&& cmul_fits(self.re as int, self.im as int, other.re as int, other.im as int)
                    &&& c.re as int == self.re * other.re - self.im * other.im
                    &&& c.im as int == self.re * other.im + self.im * other.re
                },
                Err(e) => e == NumError::Overflow && !cmul_fits(
                    self.re as int,
                    self.im as int,
                    other.re as int,
                    other.im as int,
                ),
            },
    {
        let p1: i64 = match self.re.checked_mul(other.re) {
            Some(v) => v,
            None => {
                return Err(NumError::Overflow);
            },
        };
        let p2: i64 = match self.im.checked_mul(other.im) {
            Some(v) => v,
            None => {
                return Err(NumError::Overflow);
            },
        };
        let re: i64 = match p1.checked_sub(p2) {
            Some(v) => v,
            None => {
                return Err(NumError::Overflow);
            },
        };
        let p3: i64 = match self.re.checked_mul(other.im) {
            Some(v) => v,
            None => {
                return Err(NumError::Overflow);
            },
        };
        let p4: i64 = match self.im.checked_mul(other.re) {
            Some(v) => v,
            None => {
                return Err(NumError::Overflow);
            },
        };
        let im: i64 = match p3.checked_add(p4) {
            Some(v) => v,
            None => {
                return Err(NumError::Overflow);
            },
        };
        Ok(Complex { re, im })
    }

    /// The product with a real scalar, applied to both coordinates;
    /// scaling from the left and from the right agree. Fails with
    /// `Overflow` exactly when a scaled coordinate leaves the `i64`
    /// range.
    pub fn scale(&self, k: i64) -> (r: Result<Complex, NumError>)
        ensures
            match r {
                Ok(c) => {
                    &&& in_i64(self.re * k) && in_i64(self.im * k)
                    &&& c.re as int == self.re * k
                    &&& c.im as int == self.im * k
                },
                Err(e) => e == NumError::Overflow && !(in_i64(self.re * k) && in_i64(
                    self.im * k,
                )),
            },
    {
        let re: i64 = match self.re.checked_mul(k) {
            Some(v) => v,
            None => {
                return Err(NumError::Overflow);
            },
        };
        let im: i64 = match self.im.checked_mul(k) {
            Some(v) => v,
            None => {
                return Err(NumError::Overflow);
            },
        };
        Ok(Complex { re, im })
    }

    /// The quotient, in rectangular form: with divisor `(c, d)` and
    /// squared magnitude `n = c*c + d*d`, the real part is
    /// `(re*c + im*d) / n` and the imaginary part `(im*c - re*d) / n`,
    /// each truncated toward zero. Fails with `DivisionByZero` exactly
    /// when the divisor is the zero complex number, and with `Overflow`
    /// exactly when the squared magnitude or a numerator leaves the
    /// `i64` range.
    pub fn div(&self, other: &Complex) -> (r: Result<Complex, NumError>)
        ensures
            match r {
                Ok(c) => {
                    &&& cnorm_fits(other.re as int, other.im as int)
                    &&& other.re * other.re + other.im * other.im != 0
                    &&& cdiv_fits(self.re as int, self.im as int, other.re as int, other.im as int)
                    &&& c.re as int == div_trunc(
                        self.re * other.re + self.im * other.im,
                        other.re * other.re + other.im * other.im,
                    )
                    &&& c.im as int == div_trunc(
                        self.im * other.re - self.re * other.im,
                        other.re * other.re + other.im * other.im,
                    )
                },
                Err(e) => {
                    ||| e == NumError::Overflow && !cnorm_fits(other.re as int, other.im as int)
                    ||| e == NumError::DivisionByZero && cnorm_fits(
                        other.re as int,
                        other.im as int,
                    ) && other.re * other.re + other.im * other.im == 0
                    ||| e == NumError::Overflow && cnorm_fits(other.re as int, other.im as int)
                        && other.re * other.re + other.im * other.im != 0 && !cdiv_fits(
                        self.re as int,
                        self.im as int,
                        other.re as int,
                        other.im as int,
                    )
                },
            },
    {
        let q1: i64 = match other.re.checked_mul(other.re) {
            Some(v) => v,
            None => {
                return Err(NumError::Overflow);
            },
        };
        let q2: i64 = match other.im.checked_mul(other.im) {
            Some(v) => v,
            None => {
                return Err(NumError::Overflow);
            },
        };
        let den: i64 = match q1.checked_add(q2) {
            Some(v) => v,
            None => {
                return Err(NumError::Overflow);
            },
        };
        if den == 0 {
            return Err(NumError::DivisionByZero);
        }
        proof {
            assert(other.re * other.re >= 0) by (nonlinear_arith);
            assert(other.im * other.im >= 0) by (nonlinear_arith);
        }
        let p1: i64 = match self.re.checked_mul(other.re) {
            Some(v) => v,
            None => {
                return Err(NumError::Overflow);
            },
        };
        let p2: i64 = match self.im.checked_mul(other.im) {
            Some(v) => v,
            None => {
                return Err(NumError::Overflow);
            },
        };
        let nre: i64 = match p1.checked_add(p2) {
            Some(v) => v,
            None => {
                return Err(NumError::Overflow);
            },
        };
        let p3: i64 = match self.im.checked_mul(other.re) {
            Some(v) => v,
            None => {
                return Err(NumError::Overflow);
            },
        };
        let p4: i64 = match self.re.checked_mul(other.im) {
            Some(v) => v,
            None => {
                return Err(NumError::Overflow);
            },
        };
        let nim: i64 = match p3.checked_sub(p4) {
            Some(v) => v,
            None => {
                return Err(NumError::Overflow);
            },
        };
        proof {
            lemma_div_trunc_in_range(nre as int, den as int);
            lemma_div_trunc_in_range(nim as int, den as int);
        }
        let re: i64 = match nre.checked_div(den) {
            Some(v) => v,
            None => {
                proof {
                    assert(false);
                }
                return Err(NumError::Overflow);
            },
        };
        let im: i64 = match nim.checked_div(den) {
            Some(v) => v,
            None => {
                proof {
                    assert(false);
                }
                return Err(NumError::Overflow);
            },
        };
        Ok(Complex { re, im })
    }

    /// The quotient by a real scalar, each coordinate truncated toward
    /// zero. Fails with `DivisionByZero` exactly when the scalar is zero,
    /// and with `Overflow` exactly when a quotient leaves the `i64`
    /// range (only `i64::MIN / -1` does).
    pub fn div_scalar(&self, k: i64) -> (r: Result<Complex, NumError>)
        ensures
            match r {
                Ok(c) => {
                    &&& k != 0
                    &&& in_i64(div_trunc(self.re as int, k as int))
                    &&& in_i64(div_trunc(self.im as int, k as int))
                    &&& c.re as int == div_trunc(self.re as int, k as int)
                    &&& c.im as int == div_trunc(self.im as int, k as int)
                },
                Err(e) => {
                    ||| e == NumError::DivisionByZero && k == 0
                    ||| e == NumError::Overflow && k != 0 && !(in_i64(
                        div_trunc(self.re as int, k as int),
                    ) && in_i64(div_trunc(self.im as int, k as int)))
                },
            },
    {
        if k == 0 {
            return Err(NumError::DivisionByZero);
        }
        let re: i64 = match self.re.checked_div(k) {
            Some(v) => v,
            None => {
                return Err(NumError::Overflow);
            },
        };
        let im: i64 = match self.im.checked_div(k) {
            Some(v) => v,
            None => {
                return Err(NumError::Overflow);
            },
        };
        Ok(Complex { re, im })
    }
}

} // verus!
