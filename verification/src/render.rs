use vstd::prelude::*;
use crate::scalar::Scalar;
use crate::complex::{Complex, cadd, cmul, cscale, cnorm_sq, mul_fits, add_fits, norm_sq_fits,
    scale_fits};
use crate::bitmap::{BitMap, Pixel};

verus! {

/// One escape-time step on the model plane: `z*z + c`.
pub open spec fn step(z: (int, int), c: (int, int)) -> (int, int) {
    cadd(cmul(z, z), c)
}

/// The `n`-th iterate of `z <- z*z + c`, starting from the origin.
pub open spec fn iterate(c: (int, int), n: nat) -> (int, int)
    decreases n,
{
    if n == 0 {
        (0int, 0int)
    } else {
        step(iterate(c, (n - 1) as nat), c)
    }
}

/// Whether the iteration on `c` leaves the squared bound within the
/// first `n` steps.
pub open spec fn escaped_within(c: (int, int), bound_sq: int, n: nat) -> bool {
    exists|k: nat| 1 <= k <= n && cnorm_sq(#[trigger] iterate(c, k)) > bound_sq
}

/// Whether every scalar operation of one more escape-time step on `z`
/// stays within the scalar type: squaring `z`, adding `c`, and taking
/// the squared modulus of the result.
pub open spec fn step_fits<N: Scalar>(z: (int, int), c: (int, int)) -> bool {
    &&& mul_fits::<N>(z, z)
    &&& add_fits::<N>(cmul(z, z), c)
    &&& norm_sq_fits::<N>(step(z, c))
}

/// Whether every scalar operation the escape loop performs on `c` in up
/// to `n` steps stays within the scalar type, along the path actually
/// taken: after an escape nothing more is computed.
pub open spec fn run_fits<N: Scalar>(c: (int, int), bound_sq: int, n: nat) -> bool {
    forall|k: nat|
        k < n && !escaped_within(c, bound_sq, k) ==> #[trigger] step_fits::<N>(
            iterate(c, k),
            c,
        )
}

/// With `c` at the origin the iteration never moves.
pub proof fn lemma_iterate_origin(n: nat)
    ensures
        iterate((0int, 0int), n) == (0int, 0int),
    decreases n,
{
    if n > 0 {
        lemma_iterate_origin((n - 1) as nat);
        assert(0int * 0int == 0) by (nonlinear_arith);
    }
}

/// Every scalar operation of an escape run on the origin fits: the
/// iteration only ever touches zero.
pub proof fn lemma_origin_run_fits<N: Scalar>(bound_sq: int, n: nat)
    ensures
        run_fits::<N>((0int, 0int), bound_sq, n),
{
    N::fits_zero();
    assert forall|k: nat|
        k < n && !escaped_within((0int, 0int), bound_sq, k) implies #[trigger] step_fits::<
        N,
    >(iterate((0int, 0int), k), (0int, 0int)) by {
        lemma_iterate_origin(k);
    }
}

/// The origin belongs to the set: with `c` zero and a positive squared
/// bound, no number of iterations makes the point escape.
pub proof fn lemma_origin_never_escapes(bound_sq: int, n: nat)
    requires
        bound_sq > 0,
    ensures
        !escaped_within((0int, 0int), bound_sq, n),
{
    assert forall|k: nat| 1 <= k <= n implies cnorm_sq(#[trigger] iterate(
        (0int, 0int),
        k,
    )) <= bound_sq by {
        lemma_iterate_origin(k);
    }
}

/// Decides whether `c` stays inside the squared escape bound for
/// `max_iter` iterations of `z <- z*z + c`: true when no iterate's
/// squared modulus ever exceeds `bound_sq`, false as soon as one does.
/// Zero iterations always answer true, and so does the origin whenever
/// the squared bound is positive.
pub fn is_bounded<N: Scalar>(c: Complex<N>, bound_sq: N, max_iter: usize) -> (r: bool)
    requires
        run_fits::<N>(c.model(), bound_sq.val(), max_iter as nat),
    ensures
        r == !escaped_within(c.model(), bound_sq.val(), max_iter as nat),
        max_iter == 0 ==> r,
        c.model() == (0int, 0int) && bound_sq.val() > 0 ==> r,
{
    let mut z = Complex::new(N::zero(), N::zero());
    let mut i: usize = 0;
    while i < max_iter
        invariant
            i <= max_iter,
            run_fits::<N>(c.model(), bound_sq.val(), max_iter as nat),
            z.model() == iterate(c.model(), i as nat),
            !escaped_within(c.model(), bound_sq.val(), i as nat),
        decreases max_iter - i,
    {
        proof {
            assert(step_fits::<N>(iterate(c.model(), i as nat), c.model()));
        }
        z = z.mul(z).add(c);
        proof {
            assert(z.model() == iterate(c.model(), (i + 1) as nat));
        }
        if z.module_sq().gt(bound_sq) {
            proof {
                assert(1 <= (i + 1) as nat <= max_iter as nat && cnorm_sq(iterate(
                    c.model(),
                    (i + 1) as nat,
                )) > bound_sq.val());
                if c.model() == (0int, 0int) && bound_sq.val() > 0 {
                    lemma_iterate_origin((i + 1) as nat);
                    assert(iterate(c.model(), (i + 1) as nat) == (0int, 0int));
                    assert(0int * 0int == 0) by (nonlinear_arith);
                    assert(cnorm_sq((0int, 0int)) == 0);
                    assert(false);
                }
            }
            return false;
        }
        proof {
            assert forall|k: nat| 1 <= k <= i + 1 implies cnorm_sq(#[trigger] iterate(
                c.model(),
                k,
            )) <= bound_sq.val() by {
                if k <= i as nat {
                    assert(!escaped_within(c.model(), bound_sq.val(), i as nat));
                }
            }
        }
        i += 1;
    }
    true
}

/// The model-plane point one pixel maps to: its coordinates relative to
/// the center pixel, scaled by the pixel pitch.
pub open spec fn pixel_point(x: int, y: int, cent: (int, int), ps: int) -> (int, int) {
    cscale((x - cent.0, y - cent.1), ps)
}

/// Whether classifying the pixel `(x, y)` stays within the scalar type:
/// the offsets from the center, their scaling by the pixel pitch, and
/// the whole escape run on the mapped point.
pub open spec fn pixel_fits<N: Scalar>(
    x: int,
    y: int,
    cent: (int, int),
    ps: int,
    bound_sq: int,
    it: nat,
) -> bool {
    &&& i64::MIN <= x - cent.0 <= i64::MAX
    &&& i64::MIN <= y - cent.1 <= i64::MAX
    &&& N::fits(x - cent.0)
    &&& N::fits(y - cent.1)
    &&& scale_fits::<N>((x - cent.0, y - cent.1), ps)
    &&& run_fits::<N>(pixel_point(x, y, cent, ps), bound_sq, it)
}

/// Classifies one pixel of the plot: black when the mapped point stays
/// inside the squared escape bound for all `max_iter` iterations, white
/// when it escapes.
pub fn mandelbrot_pixel<N: Scalar>(
    x: u32,
    y: u32,
    cent: (i64, i64),
    pixel_size: N,
    bound_sq: N,
    max_iter: usize,
) -> (r: Pixel)
    requires
        pixel_fits::<N>(
            x as int,
            y as int,
            (cent.0 as int, cent.1 as int),
            pixel_size.val(),
            bound_sq.val(),
            max_iter as nat,
        ),
    ensures
        r == (if !escaped_within(
            pixel_point(
                x as int,
                y as int,
                (cent.0 as int, cent.1 as int),
                pixel_size.val(),
            ),
            bound_sq.val(),
            max_iter as nat,
        ) {
            Pixel { red: 0, green: 0, blue: 0 }
        } else {
            Pixel { red: 255, green: 255, blue: 255 }
        }),
{
    let re = N::from_i64(x as i64 - cent.0);
    let im = N::from_i64(y as i64 - cent.1);
    let c = Complex::new(re, im).mul_scalar(pixel_size);
    if is_bounded(c, bound_sq, max_iter) {
        Pixel::black()
    } else {
        Pixel::white()
    }
}

/// Whether a whole rendering stays within the scalar type. The pixel
/// counts are the scalar's own quotients of the plot extents by the
/// pixel pitch, and the center pixel is where the plane's origin falls;
/// the ceiling and the rounding of an exactly held quotient are the
/// quotient itself.
pub open spec fn render_ok<N: Scalar>(
    x1: int,
    y1: int,
    x2: int,
    y2: int,
    ps: int,
    bound_sq: int,
    it: nat,
) -> bool {
    let wv = N::div_val(x2 - x1, ps);
    let hv = N::div_val(y2 - y1, ps);
    let cx = N::div_val(-x1, ps);
    let cy = N::div_val(y2, ps);
    &&& ps > 0
    &&& N::fits(x2 - x1)
    &&& N::fits(y2 - y1)
    &&& N::fits(-x1)
    &&& 0 <= wv <= u32::MAX
    &&& 0 <= hv <= u32::MAX
    &&& N::fits(wv)
    &&& N::fits(hv)
    &&& N::fits(cx)
    &&& N::fits(cy)
    &&& i64::MIN <= cx <= i64::MAX
    &&& i64::MIN <= cy <= i64::MAX
    &&& forall|x: int, y: int|
        0 <= x < wv && 0 <= y < hv ==> #[trigger] pixel_fits::<N>(
            x,
            y,
            (cx, cy),
            ps,
            bound_sq,
            it,
        )
}

/// Renders the plot rectangle `(x1, y1)`-`(x2, y2)` at the given pixel
/// pitch: a grid `ceil((x2-x1)/ps)` pixels wide and `ceil((y2-y1)/ps)`
/// high whose pixel `(x, y)` is black when the plane point
/// `(x - cx, y - cy) * ps` stays inside the squared escape bound for
/// all `max_iter` iterations and white otherwise, where `(cx, cy)` is
/// the rounded pixel position `(-x1/ps, y2/ps)` of the plane's origin.
pub fn get_bitmap_mandelbrot<N: Scalar>(
    p1: (N, N),
    p2: (N, N),
    pixel_size: N,
    bound_sq: N,
    max_iter: usize,
) -> (r: BitMap)
    requires
        render_ok::<N>(
            p1.0.val(),
            p1.1.val(),
            p2.0.val(),
            p2.1.val(),
            pixel_size.val(),
            bound_sq.val(),
            max_iter as nat,
        ),
    ensures
        r.wf(),
        r.spec_width() == N::div_val(p2.0.val() - p1.0.val(), pixel_size.val()),
        r.spec_height() == N::div_val(p2.1.val() - p1.1.val(), pixel_size.val()),
        forall|x: int, y: int|
            0 <= x < r.spec_width() && 0 <= y < r.spec_height() ==> #[trigger] r.pixel(x, y)
                == (if !escaped_within(
                pixel_point(
                    x,
                    y,
                    (
                        N::div_val(-p1.0.val(), pixel_size.val()),
                        N::div_val(p2.1.val(), pixel_size.val()),
                    ),
                    pixel_size.val(),
                ),
                bound_sq.val(),
                max_iter as nat,
            ) {
                Pixel { red: 0, green: 0, blue: 0 }
            } else {
                Pixel { red: 255, green: 255, blue: 255 }
            }),
{
    let width = p2.0.sub(p1.0).div(pixel_size).ceil_to_index();
    let height = p2.1.sub(p1.1).div(pixel_size).ceil_to_index();
    let cent_x = p1.0.neg().div(pixel_size).round_to_coord();
    let cent_y = p2.1.div(pixel_size).round_to_coord();
    let cent = (cent_x, cent_y);
    let gen = |x: u32, y: u32| -> (p: Pixel)
        requires
            x < width,
            y < height,
        ensures
            p == (if !escaped_within(
                pixel_point(
                    x as int,
                    y as int,
                    (cent_x as int, cent_y as int),
                    pixel_size.val(),
                ),
                bound_sq.val(),
                max_iter as nat,
            ) {
                Pixel { red: 0, green: 0, blue: 0 }
            } else {
                Pixel { red: 255, green: 255, blue: 255 }
            }),
        { mandelbrot_pixel(x, y, cent, pixel_size, bound_sq, max_iter) };
    let r = BitMap::new_from_generator(&gen, width, height);
    proof {
        assert forall|x: int, y: int|
            0 <= x < r.spec_width() && 0 <= y < r.spec_height() implies #[trigger] r.pixel(
            x,
            y,
        ) == (if !escaped_within(
            pixel_point(x, y, (cent_x as int, cent_y as int), pixel_size.val()),
            bound_sq.val(),
            max_iter as nat,
        ) {
            Pixel { red: 0, green: 0, blue: 0 }
        } else {
            Pixel { red: 255, green: 255, blue: 255 }
        }) by {
            assert(call_ensures(gen, (x as u32, y as u32), r.pixel(x, y)));
        }
    }
    r
}

} // verus!
