use mandelbrot::bitmap::Pixel;
use mandelbrot::complex::Complex;
use mandelbrot::render::{get_bitmap_mandelbrot, is_bounded, mandelbrot_pixel};

#[test]
fn zero_iterations_always_answer_bounded() {
    let c: Complex<i64> = Complex::new(1000000, -1000000);
    assert!(is_bounded(c, 4, 0));
}

#[test]
fn the_origin_is_always_bounded() {
    let c: Complex<i64> = Complex::new(0, 0);
    assert!(is_bounded(c, 4, 80));
    assert!(is_bounded(c, 1, 1000));
}

#[test]
fn a_far_point_escapes_after_one_iteration() {
    // z1 = c = 3, |z1|^2 = 9 > 4.
    let c: Complex<i64> = Complex::new(3, 0);
    assert!(!is_bounded(c, 4, 1));
}

#[test]
fn a_near_point_survives_one_iteration() {
    // z1 = c = -1 - i, |z1|^2 = 2 <= 4.
    let c: Complex<i64> = Complex::new(-1, -1);
    assert!(is_bounded(c, 4, 1));
}

#[test]
fn pixel_classification_maps_bounded_to_black() {
    // Center (1, 1), pitch 1: pixel (1, 1) is the plane origin.
    let p = mandelbrot_pixel::<i64>(1, 1, (1, 1), 1, 4, 80);
    assert_eq!(p, Pixel::black());
    // Pixel (4, 1) is the plane point 3, which escapes at once.
    let q = mandelbrot_pixel::<i64>(4, 1, (1, 1), 1, 4, 1);
    assert_eq!(q, Pixel::white());
}

#[test]
fn two_by_two_plot_after_one_iteration() {
    // Bounds (-1,-1)-(1,1) at pitch 1 give a 2x2 image centered on
    // pixel (1, 1); with the squared bound 4 and one iteration each of
    // the four plane points -1-i, -i, -1, 0 satisfies |z1|^2 <= 4, so
    // every pixel is black.
    let bm = get_bitmap_mandelbrot::<i64>((-1, -1), (1, 1), 1, 4, 1);
    assert_eq!(bm.size(), (2, 2));
    for x in 0..2 {
        for y in 0..2 {
            assert_eq!(bm.get_pixel(x, y).unwrap(), Pixel::black());
        }
    }
}

#[test]
fn a_wider_plot_separates_inside_from_outside() {
    // Bounds (-2,-2)-(3,3) at pitch 1: 5x5 pixels, center (2, 3).
    // With the squared bound 4 and 80 iterations the plane points
    // -2, -1, 0 stay bounded and 1, 2 do not.
    let bm = get_bitmap_mandelbrot::<i64>((-2, -2), (3, 3), 1, 4, 80);
    assert_eq!(bm.size(), (5, 5));
    // The real axis is the row y = 3: pixel (x, 3) is the plane point x - 2.
    assert_eq!(bm.get_pixel(0, 3).unwrap(), Pixel::black());
    assert_eq!(bm.get_pixel(1, 3).unwrap(), Pixel::black());
    assert_eq!(bm.get_pixel(2, 3).unwrap(), Pixel::black());
    assert_eq!(bm.get_pixel(3, 3).unwrap(), Pixel::white());
    assert_eq!(bm.get_pixel(4, 3).unwrap(), Pixel::white());
}
