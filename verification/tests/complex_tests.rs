use mandelbrot::complex::Complex;

#[test]
fn new_keeps_components() {
    let z: Complex<i64> = Complex::new(3, -4);
    assert_eq!(z.re, 3);
    assert_eq!(z.im, -4);
}

#[test]
fn add_is_componentwise() {
    let a: Complex<i64> = Complex::new(1, 2);
    let b: Complex<i64> = Complex::new(30, -40);
    let r = a.add(b);
    assert_eq!(r.re, 31);
    assert_eq!(r.im, -38);
}

#[test]
fn sub_is_componentwise() {
    let a: Complex<i64> = Complex::new(1, 2);
    let b: Complex<i64> = Complex::new(30, -40);
    let r = a.sub(b);
    assert_eq!(r.re, -29);
    assert_eq!(r.im, 42);
}

#[test]
fn add_then_sub_gives_back_the_first_operand() {
    let a: Complex<i64> = Complex::new(-17, 23);
    let b: Complex<i64> = Complex::new(1000, -999);
    let r = a.add(b).sub(b);
    assert_eq!(r.re, a.re);
    assert_eq!(r.im, a.im);
}

#[test]
fn neg_negates_both_components() {
    let z: Complex<i64> = Complex::new(5, -6);
    let r = z.neg();
    assert_eq!(r.re, -5);
    assert_eq!(r.im, 6);
}

#[test]
fn mul_is_complex_multiplication() {
    // (1+2i)(3+4i) = (3-8) + (4+6)i = -5 + 10i
    let a: Complex<i64> = Complex::new(1, 2);
    let b: Complex<i64> = Complex::new(3, 4);
    let r = a.mul(b);
    assert_eq!(r.re, -5);
    assert_eq!(r.im, 10);
}

#[test]
fn mul_scalar_scales_both_components() {
    let z: Complex<i64> = Complex::new(3, -4);
    let r = z.mul_scalar(10);
    assert_eq!(r.re, 30);
    assert_eq!(r.im, -40);
}

#[test]
fn conjugate_negates_the_imaginary_component() {
    let z: Complex<i64> = Complex::new(3, -4);
    let r = z.conjugate();
    assert_eq!(r.re, 3);
    assert_eq!(r.im, 4);
}

#[test]
fn module_sq_is_the_sum_of_squares() {
    let z: Complex<i64> = Complex::new(3, -4);
    assert_eq!(z.module_sq(), 25);
}

#[test]
fn module_sq_of_conjugate_equals_module_sq() {
    let z: Complex<i64> = Complex::new(-7, 11);
    assert_eq!(z.conjugate().module_sq(), z.module_sq());
}

#[test]
fn div_uses_the_conjugate_and_the_squared_modulus() {
    // (11+2i)/(3+4i): (11+2i)(3-4i) = 41 - 38i, |3+4i|^2 = 25,
    // and the i64 quotients truncate toward zero.
    let a: Complex<i64> = Complex::new(11, 2);
    let b: Complex<i64> = Complex::new(3, 4);
    let r = a.div(b);
    assert_eq!(r.re, 1);
    assert_eq!(r.im, -1);
}

#[test]
fn div_scalar_divides_both_components() {
    let z: Complex<i64> = Complex::new(7, -7);
    let r = z.div_scalar(2);
    assert_eq!(r.re, 3);
    assert_eq!(r.im, -3);
}

#[test]
fn div_scalar_by_a_negative_scalar_truncates_toward_zero() {
    let z: Complex<i64> = Complex::new(-7, 7);
    let r = z.div_scalar(-2);
    assert_eq!(r.re, 3);
    assert_eq!(r.im, -3);
}
