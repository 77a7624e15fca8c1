//! Complex numbers with exact (Gaussian-integer) arithmetic.

use vstd::prelude::*;

verus! {

/// Mathematical model of a complex value: a Gaussian integer, that is a
/// complex number whose real and imaginary parts are unbounded integers.
#[verifier::ext_equal]
pub ghost struct GaussInt {
    pub re: int,
    pub im: int,
}

pub open spec fn c_zero() -> GaussInt {
    GaussInt { re: 0, im: 0 }
}

pub open spec fn c_one() -> GaussInt {
    GaussInt { re: 1, im: 0 }
}

pub open spec fn c_add(a: GaussInt, b: GaussInt) -> GaussInt {
    GaussInt { re: a.re + b.re, im: a.im + b.im }
}

pub open spec fn c_sub(a: GaussInt, b: GaussInt) -> GaussInt {
    GaussInt { re: a.re - b.re, im: a.im - b.im }
}

pub open spec fn c_mul(a: GaussInt, b: GaussInt) -> GaussInt {
    GaussInt { re: a.re * b.re - a.im * b.im, im: a.re * b.im + a.im * b.re }
}

pub open spec fn c_conj(a: GaussInt) -> GaussInt {
    GaussInt { re: a.re, im: -a.im }
}

/// The squared magnitude `re^2 + im^2`: the (unnormalized) probability weight
/// of an amplitude.
pub open spec fn c_mag2(a: GaussInt) -> int {
    a.re * a.re + a.im * a.im
}

/// Both components of `a` lie in `[-b, b]`.
pub open spec fn c_in_bound(a: GaussInt, b: int) -> bool {
    -b <= a.re <= b && -b <= a.im <= b
}

/// `|x * y| <= b1 * b2` for `|x| <= b1`, `|y| <= b2`.
pub proof fn lemma_mul_bound(x: int, y: int, b1: int, b2: int)
    by (nonlinear_arith)
    requires
        -b1 <= x <= b1,
        -b2 <= y <= b2,
        0 <= b1,
        0 <= b2,
    ensures
        -(b1 * b2) <= x * y <= b1 * b2,
{
}

/// Multiplying by a purely real unit (`1` or `-1`) keeps or negates a value.
pub proof fn lemma_c_mul_unit_real(u: GaussInt, x: GaussInt)
    requires
        u.im == 0,
        u.re == 1 || u.re == -1,
    ensures
        u.re == 1 ==> c_mul(u, x) == x,
        u.re == -1 ==> c_mul(u, x) == (GaussInt { re: -x.re, im: -x.im }),
{
    assert(c_mul(u, x).re == u.re * x.re - 0 * x.im);
    assert(c_mul(u, x).im == u.re * x.im + 0 * x.re);
    assert(0 * x.im == 0 && 0 * x.re == 0) by (nonlinear_arith);
    assert(1 * x.re == x.re && 1 * x.im == x.im) by (nonlinear_arith);
    assert((-1) * x.re == -x.re && (-1) * x.im == -x.im) by (nonlinear_arith);
}

/// Products with the additive and multiplicative units.
pub proof fn lemma_c_mul_basis(x: GaussInt)
    ensures
        c_mul(x, c_zero()) == c_zero(),
        c_mul(c_zero(), x) == c_zero(),
        c_mul(x, c_one()) == x,
        c_mul(c_one(), x) == x,
{
    assert(x.re * 0 == 0 && x.im * 0 == 0 && 0 * x.re == 0 && 0 * x.im == 0) by (nonlinear_arith);
    assert(x.re * 1 == x.re && x.im * 1 == x.im && 1 * x.re == x.re && 1 * x.im == x.im)
        by (nonlinear_arith);
}

/// An exact complex number: real and imaginary part are 64-bit integers.
#[derive(Clone, Copy, Debug, PartialEq, Eq, Structural)]
pub struct Complex {
    pub re: i64,
    pub im: i64,
}

impl View for Complex {
    type V = GaussInt;

    open spec fn view(&self) -> GaussInt {
        GaussInt { re: self.re as int, im: self.im as int }
    }
}

impl Complex {
    pub fn new(re: i64, im: i64) -> (r: Complex)
        ensures
            r@ == (GaussInt { re: re as int, im: im as int }),
    {
        Complex { re, im }
    }

    pub fn zero() -> (r: Complex)
        ensures
            r@ == c_zero(),
    {
        Complex { re: 0, im: 0 }
    }

    pub fn one() -> (r: Complex)
        ensures
            r@ == c_one(),
    {
        Complex { re: 1, im: 0 }
    }

    pub fn add(self, other: Complex) -> (r: Complex)
        requires
            i64::MIN <= self@.re + other@.re <= i64::MAX,
            i64::MIN <= self@.im + other@.im <= i64::MAX,
        ensures
            r@ == c_add(self@, other@),
    {
        Complex { re: self.re + other.re, im: self.im + other.im }
    }

    pub fn subtract(self, other: Complex) -> (r: Complex)
        requires
            i64::MIN <= self@.re - other@.re <= i64::MAX,
            i64::MIN <= self@.im - other@.im <= i64::MAX,
        ensures
            r@ == c_sub(self@, other@),
    {
        Complex { re: self.re - other.re, im: self.im - other.im }
    }

    pub fn multiply(self, other: Complex) -> (r: Complex)
        requires
            self.re != i64::MIN,
            self.im != i64::MIN,
            other.re != i64::MIN,
            other.im != i64::MIN,
            i64::MIN <= c_mul(self@, other@).re <= i64::MAX,
            i64::MIN <= c_mul(self@, other@).im <= i64::MAX,
        ensures
            r@ == c_mul(self@, other@),
    {
        let ar = self.re as i128;
        let ai = self.im as i128;
        let br = other.re as i128;
        let bi = other.im as i128;
        proof {
            lemma_mul_bound(ar as int, br as int, i64::MAX as int, i64::MAX as int);
            lemma_mul_bound(ai as int, bi as int, i64::MAX as int, i64::MAX as int);
            lemma_mul_bound(ar as int, bi as int, i64::MAX as int, i64::MAX as int);
            lemma_mul_bound(ai as int, br as int, i64::MAX as int, i64::MAX as int);
        }
        let re = ar * br - ai * bi;
        let im = ar * bi + ai * br;
        Complex { re: re as i64, im: im as i64 }
    }

    /// Negates the imaginary part.
    pub fn conjugate(self) -> (r: Complex)
        requires
            self.im != i64::MIN,
        ensures
            r@ == c_conj(self@),
    {
        Complex { re: self.re, im: -self.im }
    }

    /// `re^2 + im^2`, computed exactly in 128 bits.
    pub fn magnitude_squared(self) -> (r: i128)
        requires
            self.re != i64::MIN,
            self.im != i64::MIN,
        ensures
            r == c_mag2(self@),
    {
        let re = self.re as i128;
        let im = self.im as i128;
        proof {
            lemma_mul_bound(re as int, re as int, i64::MAX as int, i64::MAX as int);
            lemma_mul_bound(im as int, im as int, i64::MAX as int, i64::MAX as int);
        }
        re * re + im * im
    }
}

} // verus!
