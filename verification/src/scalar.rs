use vstd::prelude::*;

verus! {

/// The absolute value of a mathematical integer.
pub open spec fn abs_val(a: int) -> int {
    if a >= 0 {
        a
    } else {
        -a
    }
}

/// Truncating division: the quotient of `a` by `b` rounded toward zero.
/// This is the native division of the built-in signed integers.
pub open spec fn trunc_div(a: int, b: int) -> int {
    if (a >= 0) == (b >= 0) {
        abs_val(a) / abs_val(b)
    } else {
        -(abs_val(a) / abs_val(b))
    }
}

/// The arithmetic capability a scalar must offer so that complex numbers can
/// be built over it: addition, subtraction, negation, multiplication,
/// division, comparison, and conversions from and to plain coordinates.
///
/// The model is exact: a scalar stands for the mathematical integer
/// `self.val()`, an operation is available whenever its exact result `fits`
/// the type, and division returns the type's own quotient `Self::div_val`.
/// The ceiling and the rounding of an exactly held value are the value
/// itself, which is what `ceil_to_index` and `round_to_coord` return.
pub trait Scalar: Sized + Copy {
    /// The mathematical value this scalar stands for.
    spec fn val(self) -> int;

    /// Whether the mathematical value `x` can be held exactly by this type.
    spec fn fits(x: int) -> bool;

    /// The value of the type's native division of `a` by `b`.
    spec fn div_val(a: int, b: int) -> int;

    /// Zero can be held by every scalar type.
    proof fn fits_zero()
        ensures
            Self::fits(0),
    ;

    /// The scalar holding zero.
    fn zero() -> (r: Self)
        ensures
            r.val() == 0,
    ;

    /// The scalar holding the value of a plain machine integer.
    fn from_i64(x: i64) -> (r: Self)
        requires
            Self::fits(x as int),
        ensures
            r.val() == x as int,
    ;

    /// Exact addition.
    fn add(self, rhs: Self) -> (r: Self)
        requires
            Self::fits(self.val() + rhs.val()),
        ensures
            r.val() == self.val() + rhs.val(),
    ;

    /// Exact subtraction.
    fn sub(self, rhs: Self) -> (r: Self)
        requires
            Self::fits(self.val() - rhs.val()),
        ensures
            r.val() == self.val() - rhs.val(),
    ;

    /// Exact negation.
    fn neg(self) -> (r: Self)
        requires
            Self::fits(-self.val()),
        ensures
            r.val() == -self.val(),
    ;

    /// Exact multiplication.
    fn mul(self, rhs: Self) -> (r: Self)
        requires
            Self::fits(self.val() * rhs.val()),
        ensures
            r.val() == self.val() * rhs.val(),
    ;

    /// The type's native division; the divisor must not hold zero.
    fn div(self, rhs: Self) -> (r: Self)
        requires
            rhs.val() != 0,
            Self::fits(Self::div_val(self.val(), rhs.val())),
        ensures
            r.val() == Self::div_val(self.val(), rhs.val()),
    ;

    /// Strict comparison of the held values.
    fn gt(self, rhs: Self) -> (r: bool)
        ensures
            r == (self.val() > rhs.val()),
    ;

    /// The ceiling of the held value as a pixel count. An exactly held
    /// value is its own ceiling.
    fn ceil_to_index(self) -> (r: u32)
        requires
            0 <= self.val() <= u32::MAX,
        ensures
            r as int == self.val(),
    ;

    /// The held value rounded to the nearest plain coordinate. An exactly
    /// held value is its own rounding.
    fn round_to_coord(self) -> (r: i64)
        requires
            i64::MIN <= self.val() <= i64::MAX,
        ensures
            r as int == self.val(),
    ;
}

impl Scalar for i64 {
    open spec fn val(self) -> int {
        self as int
    }

    open spec fn fits(x: int) -> bool {
        i64::MIN <= x <= i64::MAX
    }

    open spec fn div_val(a: int, b: int) -> int {
        trunc_div(a, b)
    }

    proof fn fits_zero() {
    }

    fn zero() -> (r: Self) {
        0
    }

    fn from_i64(x: i64) -> (r: Self) {
        x
    }

    fn add(self, rhs: Self) -> (r: Self) {
        self + rhs
    }

    fn sub(self, rhs: Self) -> (r: Self) {
        self - rhs
    }

    fn neg(self) -> (r: Self) {
        -self
    }

    fn mul(self, rhs: Self) -> (r: Self) {
        self * rhs
    }

    fn div(self, rhs: Self) -> (r: Self) {
        let negative = (self < 0) != (rhs < 0);
        let ua: u64 = if self >= 0 {
            self as u64
        } else {
            (-(self as i128)) as u64
        };
        let ub: u64 = if rhs >= 0 {
            rhs as u64
        } else {
            (-(rhs as i128)) as u64
        };
        let uq: u64 = ua / ub;
        proof {
            assert(ua == abs_val(self as int));
            assert(ub == abs_val(rhs as int));
            assert(uq == abs_val(self as int) / abs_val(rhs as int));
        }
        let q: i128 = if negative {
            -(uq as i128)
        } else {
            uq as i128
        };
        proof {
            assert(q == trunc_div(self as int, rhs as int));
        }
        q as i64
    }

    fn gt(self, rhs: Self) -> (r: bool) {
        self > rhs
    }

    fn ceil_to_index(self) -> (r: u32) {
        self as u32
    }

    fn round_to_coord(self) -> (r: i64) {
        self
    }
}

} // verus!
