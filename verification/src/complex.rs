use vstd::prelude::*;
use crate::scalar::Scalar;

verus! {

/// A complex number over any scalar type `N` that supports the required
/// arithmetic. A value type: every operation returns a new value.
#[derive(Clone, Copy, Debug)]
pub struct Complex<N> {
    pub re: N,
    pub im: N,
}

/// Componentwise sum of two complex model values.
pub open spec fn cadd(a: (int, int), b: (int, int)) -> (int, int) {
    (a.0 + b.0, a.1 + b.1)
}

/// Componentwise difference of two complex model values.
pub open spec fn csub(a: (int, int), b: (int, int)) -> (int, int) {
    (a.0 - b.0, a.1 - b.1)
}

/// Negation of both components.
pub open spec fn cneg(a: (int, int)) -> (int, int) {
    (-a.0, -a.1)
}

/// The conjugate: the imaginary component negated.
pub open spec fn cconj(a: (int, int)) -> (int, int) {
    (a.0, -a.1)
}

/// Complex multiplication: `(a+bi)(c+di) = (ac-bd) + (ad+bc)i`.
pub open spec fn cmul(a: (int, int), b: (int, int)) -> (int, int) {
    (a.0 * b.0 - a.1 * b.1, a.0 * b.1 + a.1 * b.0)
}

/// Both components scaled by a scalar.
pub open spec fn cscale(a: (int, int), s: int) -> (int, int) {
    (a.0 * s, a.1 * s)
}

/// The squared modulus `re*re + im*im`; no square root is taken, callers
/// compare it against a pre-squared bound.
pub open spec fn cnorm_sq(a: (int, int)) -> int {
    a.0 * a.0 + a.1 * a.1
}

/// Whether a componentwise sum stays within the scalar type.
pub open spec fn add_fits<N: Scalar>(a: (int, int), b: (int, int)) -> bool {
    N::fits(a.0 + b.0) && N::fits(a.1 + b.1)
}

/// Whether a componentwise difference stays within the scalar type.
pub open spec fn sub_fits<N: Scalar>(a: (int, int), b: (int, int)) -> bool {
    N::fits(a.0 - b.0) && N::fits(a.1 - b.1)
}

/// Whether a negation stays within the scalar type.
pub open spec fn neg_fits<N: Scalar>(a: (int, int)) -> bool {
    N::fits(-a.0) && N::fits(-a.1)
}

/// Whether a conjugate stays within the scalar type.
pub open spec fn conj_fits<N: Scalar>(a: (int, int)) -> bool {
    N::fits(-a.1)
}

/// Whether every intermediate of a complex product stays within the
/// scalar type.
pub open spec fn mul_fits<N: Scalar>(a: (int, int), b: (int, int)) -> bool {
    &&& N::fits(a.0 * b.0)
    &&& N::fits(a.1 * b.1)
    &&& N::fits(a.0 * b.0 - a.1 * b.1)
    &&& N::fits(a.0 * b.1)
    &&& N::fits(a.1 * b.0)
    &&& N::fits(a.0 * b.1 + a.1 * b.0)
}

/// Whether a scaling stays within the scalar type.
pub open spec fn scale_fits<N: Scalar>(a: (int, int), s: int) -> bool {
    N::fits(a.0 * s) && N::fits(a.1 * s)
}

/// Whether every intermediate of a squared modulus stays within the
/// scalar type.
pub open spec fn norm_sq_fits<N: Scalar>(a: (int, int)) -> bool {
    &&& N::fits(a.0 * a.0)
    &&& N::fits(a.1 * a.1)
    &&& N::fits(a.0 * a.0 + a.1 * a.1)
}

impl<N> Complex<N> {
    /// Creates a new complex number from its two components.
    pub fn new(re: N, im: N) -> (r: Self)
        ensures
            r == (Complex { re, im }),
    {
        Complex { re, im }
    }
}

impl<N: Scalar> Complex<N> {
    /// The pair of mathematical values this complex number stands for.
    pub open spec fn model(self) -> (int, int) {
        (self.re.val(), self.im.val())
    }

    /// Componentwise addition.
    pub fn add(self, rhs: Self) -> (r: Self)
        requires
            add_fits::<N>(self.model(), rhs.model()),
        ensures
            r.model() == cadd(self.model(), rhs.model()),
    {
        Complex { re: self.re.add(rhs.re), im: self.im.add(rhs.im) }
    }

    /// Componentwise subtraction.
    pub fn sub(self, rhs: Self) -> (r: Self)
        requires
            sub_fits::<N>(self.model(), rhs.model()),
        ensures
            r.model() == csub(self.model(), rhs.model()),
    {
        Complex { re: self.re.sub(rhs.re), im: self.im.sub(rhs.im) }
    }

    /// Negation of both components.
    pub fn neg(self) -> (r: Self)
        requires
            neg_fits::<N>(self.model()),
        ensures
            r.model() == cneg(self.model()),
    {
        Complex { re: self.re.neg(), im: self.im.neg() }
    }

    /// Complex multiplication.
    pub fn mul(self, rhs: Self) -> (r: Self)
        requires
            mul_fits::<N>(self.model(), rhs.model()),
        ensures
            r.model() == cmul(self.model(), rhs.model()),
    {
        let re = self.re.mul(rhs.re).sub(self.im.mul(rhs.im));
        let im = self.re.mul(rhs.im).add(self.im.mul(rhs.re));
        Complex { re, im }
    }

    /// Both components scaled by a scalar.
    pub fn mul_scalar(self, rhs: N) -> (r: Self)
        requires
            scale_fits::<N>(self.model(), rhs.val()),
        ensures
            r.model() == cscale(self.model(), rhs.val()),
    {
        Complex { re: self.re.mul(rhs), im: self.im.mul(rhs) }
    }

    /// The conjugate: the imaginary component negated.
    pub fn conjugate(self) -> (r: Self)
        requires
            conj_fits::<N>(self.model()),
        ensures
            r.model() == cconj(self.model()),
    {
        Complex { re: self.re, im: self.im.neg() }
    }

    /// The squared modulus `re*re + im*im`.
    pub fn module_sq(self) -> (r: N)
        requires
            norm_sq_fits::<N>(self.model()),
        ensures
            r.val() == cnorm_sq(self.model()),
    {
        self.re.mul(self.re).add(self.im.mul(self.im))
    }

    /// Componentwise division by a scalar, with the scalar type's own
    /// division semantics; the divisor must not hold zero.
    pub fn div_scalar(self, rhs: N) -> (r: Self)
        requires
            rhs.val() != 0,
            N::fits(N::div_val(self.re.val(), rhs.val())),
            N::fits(N::div_val(self.im.val(), rhs.val())),
        ensures
            r.model() == (
                N::div_val(self.re.val(), rhs.val()),
                N::div_val(self.im.val(), rhs.val()),
            ),
    {
        Complex { re: self.re.div(rhs), im: self.im.div(rhs) }
    }

    /// Complex division, computed as `self * conjugate(rhs)` divided
    /// componentwise by `module_sq(rhs)`; `rhs` must not be zero.
    pub fn div(self, rhs: Self) -> (r: Self)
        requires
            rhs.model() != (0int, 0int),
            conj_fits::<N>(rhs.model()),
            mul_fits::<N>(self.model(), cconj(rhs.model())),
            norm_sq_fits::<N>(rhs.model()),
            N::fits(N::div_val(
                cmul(self.model(), cconj(rhs.model())).0,
                cnorm_sq(rhs.model()),
            )),
            N::fits(N::div_val(
                cmul(self.model(), cconj(rhs.model())).1,
                cnorm_sq(rhs.model()),
            )),
        ensures
            r.model() == (
                N::div_val(cmul(self.model(), cconj(rhs.model())).0, cnorm_sq(rhs.model())),
                N::div_val(cmul(self.model(), cconj(rhs.model())).1, cnorm_sq(rhs.model())),
            ),
    {
        proof {
            lemma_norm_sq_nonzero(rhs.model());
        }
        let nominator = self.mul(rhs.conjugate());
        let denominator = rhs.module_sq();
        nominator.div_scalar(denominator)
    }
}

/// The squared modulus of a nonzero complex model value is nonzero.
pub proof fn lemma_norm_sq_nonzero(a: (int, int))
    requires
        a != (0int, 0int),
    ensures
        cnorm_sq(a) > 0,
{
    assert(a.0 != 0 || a.1 != 0);
    assert(a.0 * a.0 + a.1 * a.1 > 0) by (nonlinear_arith)
        requires
            a.0 != 0 || a.1 != 0,
    ;
}

/// Conjugation preserves the squared modulus.
pub proof fn lemma_module_sq_conjugate(z: (int, int))
    ensures
        cnorm_sq(cconj(z)) == cnorm_sq(z),
{
    assert((-z.1) * (-z.1) == z.1 * z.1) by (nonlinear_arith);
}

/// Adding a complex value and then subtracting it gives back the
/// original value.
pub proof fn lemma_add_sub_cancel(a: (int, int), b: (int, int))
    ensures
        csub(cadd(a, b), b) == a,
{
}

} // verus!
